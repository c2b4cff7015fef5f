//! Which partitions a transaction touches, and what that keeps it from doing.
use super::{CommitError, Committer, CommitterState, RaftState, Refusal};
use crate::documents;
use crate::documents::{DocumentWrite, ReadSet, TableInfo, TableMapping};
use crate::metrics;
use crate::metrics::{Measured, MetricsRecorder};
use crate::names::{TabletId, WriteSource};
use crate::ordered;
use crate::partition;
use crate::partition::{PartitionId, PartitionMap, Routing};
use crate::text;
use std::collections::{BTreeMap, BTreeSet};
use vstd::prelude::*;
use vstd::string::*;

verus! {

broadcast use {vstd::std_specs::btree::group_btree_axioms, vstd::laws_cmp::group_laws_cmp};

/// The other partition that owns what is stored as `tablet`, if one does.
pub open spec fn remote_owner(
    tablet: TabletId,
    tables: Seq<TableInfo>,
    routing: Routing,
    source: Option<Seq<char>>,
) -> Option<PartitionId> {
    match documents::name_of(tables, tablet) {
        None => None,
        Some(name) => match routing.routed(name, source) {
            None => None,
            Some(p) => if p == routing.local {
                None
            } else {
                Some(p)
            },
        },
    }
}

/// The other partitions that own any of `tablets`.
pub open spec fn remote_owners(
    tablets: Seq<TabletId>,
    tables: Seq<TableInfo>,
    routing: Routing,
    source: Option<Seq<char>>,
) -> Set<u32>
    decreases tablets.len(),
{
    if tablets.len() == 0 {
        Set::empty()
    } else {
        let rest = remote_owners(tablets.drop_last(), tables, routing, source);
        match remote_owner(tablets.last(), tables, routing, source) {
            Some(p) => rest.insert(p.0),
            None => rest,
        }
    }
}

/// The other partition that owns what is stored as `tablet`, if one does.
pub fn remote_partition(
    tablet: TabletId,
    table_mapping: &TableMapping,
    partition_map: &PartitionMap,
    write_source: &WriteSource,
) -> (r: Option<PartitionId>)
    ensures
        r == remote_owner(tablet, table_mapping.tables@, partition_map@, write_source@),
{
    match table_mapping.tablet_name(tablet) {
        None => None,
        Some(name) => match partition::routed_partition_for_table(name, partition_map, write_source) {
            None => None,
            Some(p) => {
                let local: PartitionId = partition_map.local_partition();
                if p == local {
                    None
                } else {
                    Some(p)
                }
            },
        },
    }
}

fn visit_tablets(
    partitions: &mut BTreeSet<u32>,
    seen: Ghost<Seq<TabletId>>,
    tablets: &Vec<TabletId>,
    table_mapping: &TableMapping,
    partition_map: &PartitionMap,
    write_source: &WriteSource,
)
    requires
        old(partitions)@ == remote_owners(
            seen@,
            table_mapping.tables@,
            partition_map@,
            write_source@,
        ),
    ensures
        final(partitions)@ == remote_owners(
            seen@ + tablets@,
            table_mapping.tables@,
            partition_map@,
            write_source@,
        ),
{
    let mut i: usize = 0;
    assert(seen@ + tablets@.take(0) =~= seen@);
    while i < tablets.len()
        invariant
            i <= tablets@.len(),
            partitions@ == remote_owners(
                seen@ + tablets@.take(i as int),
                table_mapping.tables@,
                partition_map@,
                write_source@,
            ),
        decreases tablets@.len() - i,
    {
        assert((seen@ + tablets@.take(i + 1)).drop_last() =~= seen@ + tablets@.take(i as int));
        if let Some(p) = remote_partition(tablets[i], table_mapping, partition_map, write_source) {
            partitions.insert(p.0);
        }
        i += 1;
    }
    assert(tablets@.take(i as int) =~= tablets@);
}

/// The other partitions that own a table of `reads`.
pub fn remote_read_partitions(
    reads: &ReadSet,
    table_mapping: &TableMapping,
    partition_map: &PartitionMap,
    write_source: &WriteSource,
) -> (r: BTreeSet<u32>)
    ensures
        r@ == remote_owners(
            reads.tablets(),
            table_mapping.tables@,
            partition_map@,
            write_source@,
        ),
{
    let mut partitions: BTreeSet<u32> = BTreeSet::new();
    visit_tablets(
        &mut partitions,
        Ghost(Seq::empty()),
        &reads.indexed,
        table_mapping,
        partition_map,
        write_source,
    );
    assert(Seq::<TabletId>::empty() + reads.indexed@ =~= reads.indexed@);
    visit_tablets(
        &mut partitions,
        Ghost(reads.indexed@),
        &reads.search,
        table_mapping,
        partition_map,
        write_source,
    );
    partitions
}

/// Up to where `partition` can be read; nothing of it has been seen where the
/// map says nothing.
pub open spec fn frontier_of(frontiers: Map<u32, u64>, partition: u32) -> u64 {
    if frontiers.contains_key(partition) {
        frontiers[partition]
    } else {
        0
    }
}

/// The partitions of `partitions` that cannot be read at `begin_ts` yet, each
/// with its frontier.
pub open spec fn stale_in(partitions: Seq<u32>, frontiers: Map<u32, u64>, begin_ts: u64) -> Seq<
    (PartitionId, u64),
>
    decreases partitions.len(),
{
    if partitions.len() == 0 {
        Seq::empty()
    } else {
        let rest = stale_in(partitions.drop_last(), frontiers, begin_ts);
        let frontier = frontier_of(frontiers, partitions.last());
        if frontier < begin_ts {
            rest.push((PartitionId(partitions.last()), frontier))
        } else {
            rest
        }
    }
}

/// The other partitions that `reads` touches and that cannot be read at
/// `begin_ts` yet, in ascending order, each with its frontier.
pub fn stale_replica_frontiers(
    frontiers: &BTreeMap<u32, u64>,
    begin_ts: u64,
    reads: &ReadSet,
    table_mapping: &TableMapping,
    partition_map: &PartitionMap,
    write_source: &WriteSource,
) -> (r: Vec<(PartitionId, u64)>)
    ensures
        r@ == stale_in(
            ordered::ascending_u32(
                remote_owners(
                    reads.tablets(),
                    table_mapping.tables@,
                    partition_map@,
                    write_source@,
                ),
            ),
            frontiers@,
            begin_ts,
        ),
{
    let partitions = remote_read_partitions(reads, table_mapping, partition_map, write_source);
    let members = ordered::members_u32(&partitions);
    let mut stale: Vec<(PartitionId, u64)> = Vec::new();
    let mut i: usize = 0;
    while i < members.len()
        invariant
            i <= members@.len(),
            stale@ == stale_in(members@.take(i as int), frontiers@, begin_ts),
        decreases members@.len() - i,
    {
        assert(members@.take(i + 1).drop_last() =~= members@.take(i as int));
        let frontier: u64 = match frontiers.get(&members[i]) {
            Some(ts) => *ts,
            None => 0,
        };
        if frontier < begin_ts {
            stale.push((PartitionId(members[i]), frontier));
        }
        i += 1;
    }
    assert(members@.take(i as int) =~= members@);
    stale
}

/// How one stale frontier is reported.
pub open spec fn frontier_text(s: (PartitionId, u64)) -> Seq<char> {
    s.0.text() + ": frontier="@ + text::dec(s.1 as nat)
}

/// How stale frontiers are reported.
pub open spec fn frontiers_text(stale: Seq<(PartitionId, u64)>) -> Seq<char>
    decreases stale.len(),
{
    if stale.len() == 0 {
        Seq::empty()
    } else if stale.len() == 1 {
        frontier_text(stale[0])
    } else {
        frontiers_text(stale.drop_last()) + ", "@ + frontier_text(stale.last())
    }
}

/// Said when a read may have missed a write of another partition.
pub open spec fn stale_refusal(
    stale: Seq<(PartitionId, u64)>,
    begin_ts: u64,
    source: Option<Seq<char>>,
) -> Refusal {
    super::conflicted(
        "Cross-partition OCC requires remote read frontiers >= "@ + text::dec(begin_ts as nat)
            + ", but found "@ + frontiers_text(stale),
        Some(begin_ts),
        source,
    )
}

fn push_frontiers(s: &mut String, stale: &Vec<(PartitionId, u64)>)
    ensures
        final(s)@ == old(s)@ + frontiers_text(stale@),
{
    let ghost start = s@;
    let mut i: usize = 0;
    assert(s@ =~= start + frontiers_text(stale@.take(0)));
    while i < stale.len()
        invariant
            i <= stale@.len(),
            s@ == start + frontiers_text(stale@.take(i as int)),
        decreases stale@.len() - i,
    {
        let ghost before = s@;
        if i > 0 {
            s.append(", ");
        }
        stale[i].0.push_to(s);
        s.append(": frontier=");
        text::push_dec(s, stale[i].1);
        assert(stale@.take(i + 1).drop_last() =~= stale@.take(i as int));
        assert(s@ =~= start + frontiers_text(stale@.take(i + 1)));
        i += 1;
    }
    assert(stale@.take(i as int) =~= stale@);
}

/// Said by a node that may not write for its partition.
pub open spec fn not_leader_refusal(raft: RaftState) -> Refusal {
    super::refused(
        "Not the Raft leader for partition "@ + raft.partition.text() + ". Current leader: node "@
            + text::dec(raft.leader_id as nat) + ". Forward this mutation to the leader."@,
    )
}

/// Said of a prepared write whose table is not known.
pub open spec fn unmapped_refusal(tablet: TabletId) -> Refusal {
    super::refused("Missing table mapping for prepared write "@ + tablet_text(tablet))
}

/// A tablet as messages show it: its thirty-two hexadecimal digits.
pub open spec fn tablet_text(tablet: TabletId) -> Seq<char> {
    text::hex_padded(tablet.0 as nat, 32)
}

/// Said of a prepared write to a table of another partition.
pub open spec fn misrouted_prepare_refusal(table: Seq<char>, owner: PartitionId, local: PartitionId) -> Refusal {
    super::refused(
        "Write to table '"@ + table + "' rejected during prepare: owned by "@ + owner.text()
            + ", not this node ("@ + local.text()
            + "). Coordinator routed this transaction to the wrong participant."@,
    )
}

/// Said of a write to a table of another partition.
pub open spec fn misrouted_commit_refusal(table: Seq<char>, owner: PartitionId, local: PartitionId) -> Refusal {
    super::refused(
        "Write to table '"@ + table + "' rejected: owned by "@ + owner.text()
            + ", not this node ("@ + local.text()
            + "). Route this mutation to the correct partition owner."@,
    )
}

/// What the owner of one prepared write's table makes of it.
pub open spec fn prepare_ownership(
    tablet: TabletId,
    tables: Seq<TableInfo>,
    routing: Routing,
    source: Option<Seq<char>>,
) -> Option<Refusal> {
    match documents::name_of(tables, tablet) {
        None => Some(unmapped_refusal(tablet)),
        Some(name) => match remote_owner(tablet, tables, routing, source) {
            Some(owner) => Some(misrouted_prepare_refusal(name, owner, routing.local)),
            None => None,
        },
    }
}

/// The first objection to the owners of prepared writes.
pub open spec fn prepare_objection(
    writes: Seq<DocumentWrite>,
    tables: Seq<TableInfo>,
    routing: Routing,
    source: Option<Seq<char>>,
) -> Option<Refusal>
    decreases writes.len(),
{
    if writes.len() == 0 {
        None
    } else {
        match prepare_objection(writes.drop_last(), tables, routing, source) {
            Some(e) => Some(e),
            None => prepare_ownership(writes.last().id.tablet, tables, routing, source),
        }
    }
}

/// The first objection to the owners of a commit's writes. A table that is not
/// known is nobody else's.
pub open spec fn commit_objection(
    writes: Seq<DocumentWrite>,
    tables: Seq<TableInfo>,
    routing: Routing,
    source: Option<Seq<char>>,
) -> Option<Refusal>
    decreases writes.len(),
{
    if writes.len() == 0 {
        None
    } else {
        match commit_objection(writes.drop_last(), tables, routing, source) {
            Some(e) => Some(e),
            None => match remote_owner(writes.last().id.tablet, tables, routing, source) {
                Some(owner) => Some(
                    misrouted_commit_refusal(
                        documents::name_of(tables, writes.last().id.tablet)->0,
                        owner,
                        routing.local,
                    ),
                ),
                None => None,
            },
        }
    }
}

impl CommitterState {
    /// The objection to writing on a node that does not lead its partition.
    pub open spec fn leadership_objection(self) -> Option<Refusal> {
        match self.raft {
            Some(raft) => if raft.is_leader {
                None
            } else {
                Some(not_leader_refusal(raft))
            },
            None => None,
        }
    }

    /// What is measured once it has been checked who leads.
    pub open spec fn after_leadership_check(self, before: Seq<Measured>) -> Seq<Measured> {
        match self.raft {
            Some(raft) => if raft.is_leader {
                before
            } else {
                before.push(
                    metrics::counted(
                        "DATABASE_WRITE_REJECTED_NOT_LEADER_TOTAL"@,
                        1,
                        seq![("partition"@, metrics::number_text(raft.partition))],
                    ),
                )
            },
            None => before,
        }
    }

    /// The objection to the owners of prepared writes.
    pub open spec fn ownership_objection(
        self,
        writes: Seq<DocumentWrite>,
        tables: Seq<TableInfo>,
        source: Option<Seq<char>>,
    ) -> Option<Refusal> {
        match self.placement {
            None => None,
            Some(p) => prepare_objection(writes, tables, p.1.routing(p.0), source),
        }
    }

    /// The objection to the owners of a commit's writes.
    pub open spec fn commit_ownership_objection(
        self,
        writes: Seq<DocumentWrite>,
        tables: Seq<TableInfo>,
        source: Option<Seq<char>>,
    ) -> Option<Refusal> {
        match self.placement {
            None => None,
            Some(p) => commit_objection(writes, tables, p.1.routing(p.0), source),
        }
    }

    /// The frontiers that are behind what a transaction read.
    pub open spec fn stale_frontiers(
        self,
        begin_ts: u64,
        tablets: Seq<TabletId>,
        tables: Seq<TableInfo>,
        source: Option<Seq<char>>,
    ) -> Seq<(PartitionId, u64)> {
        match self.placement {
            None => Seq::empty(),
            Some(p) => stale_in(
                ordered::ascending_u32(remote_owners(tablets, tables, p.1.routing(p.0), source)),
                self.frontiers,
                begin_ts,
            ),
        }
    }

    /// The objection to reads of other partitions that may have missed writes.
    pub open spec fn frontier_objection(
        self,
        begin_ts: u64,
        tablets: Seq<TabletId>,
        tables: Seq<TableInfo>,
        source: Option<Seq<char>>,
    ) -> Option<Refusal> {
        let stale = self.stale_frontiers(begin_ts, tablets, tables, source);
        if stale.len() == 0 {
            None
        } else {
            Some(stale_refusal(stale, begin_ts, source))
        }
    }
}

/// A check, as contracts speak of it.
pub open spec fn objection(r: Result<(), CommitError>) -> Option<Refusal> {
    match r {
        Ok(()) => None,
        Err(e) => Some(e@),
    }
}

fn misrouted(table: &str, during: &str, owner: PartitionId, local: PartitionId, advice: &str) -> (r: String)
    ensures
        r@ == "Write to table '"@ + table@ + "' rejected"@ + during@ + ": owned by "@ + owner.text()
            + ", not this node ("@ + local.text() + "). "@ + advice@,
{
    let mut s: String = String::new();
    s.append("Write to table '");
    s.append(table);
    s.append("' rejected");
    s.append(during);
    s.append(": owned by ");
    owner.push_to(&mut s);
    s.append(", not this node (");
    local.push_to(&mut s);
    s.append("). ");
    s.append(advice);
    assert(s@ =~= "Write to table '"@ + table@ + "' rejected"@ + during@ + ": owned by "@
        + owner.text() + ", not this node ("@ + local.text() + "). "@ + advice@);
    s
}

impl Committer {
    /// Refuses to write on a node that does not lead its partition, and counts
    /// the refusal.
    pub fn ensure_leader_for_writes(&self, metrics: &mut MetricsRecorder) -> (r: Result<(), CommitError>)
        ensures
            objection(r) == self@.leadership_objection(),
            final(metrics)@ == self@.after_leadership_check(old(metrics)@),
    {
        if let Some(raft) = self.raft {
            if !raft.is_leader {
                metrics::log_write_rejected_not_leader(metrics, raft.partition);
                let mut s: String = String::new();
                s.append("Not the Raft leader for partition ");
                raft.partition.push_to(&mut s);
                s.append(". Current leader: node ");
                text::push_dec(&mut s, raft.leader_id);
                s.append(". Forward this mutation to the leader.");
                assert(s@ =~= not_leader_refusal(raft).text);
                return Err(CommitError::new(s));
            }
        }
        Ok(())
    }

    /// Refuses prepared writes to tables that this node does not own or does not
    /// know.
    pub fn ensure_prepare_ownership(
        &self,
        writes: &Vec<DocumentWrite>,
        table_mapping: &TableMapping,
        write_source: &WriteSource,
    ) -> (r: Result<(), CommitError>)
        ensures
            objection(r) == self@.ownership_objection(
                writes@,
                table_mapping.tables@,
                write_source@,
            ),
    {
        let partition_map = match &self.placement {
            Some(p) => p.partition_map(),
            None => {
                return Ok(());
            },
        };
        let mut i: usize = 0;
        while i < writes.len()
            invariant
                i <= writes@.len(),
                prepare_objection(
                    writes@.take(i as int),
                    table_mapping.tables@,
                    partition_map@,
                    write_source@,
                ) is None,
                self@.placement matches Some(p) && partition_map@ == p.1.routing(p.0),
            decreases writes@.len() - i,
        {
            let tablet: TabletId = writes[i].id.tablet;
            proof {
                assert(writes@.take(i + 1).drop_last() =~= writes@.take(i as int));
                lemma_prepare_objection_sticks(
                    writes@,
                    i + 1,
                    table_mapping.tables@,
                    partition_map@,
                    write_source@,
                );
            }
            let name = match table_mapping.tablet_name(tablet) {
                Some(name) => name,
                None => {
                    let mut s: String = String::new();
                    s.append("Missing table mapping for prepared write ");
                    text::push_hex32(&mut s, tablet.0);
                    assert(s@ =~= unmapped_refusal(tablet).text);
                    return Err(CommitError::new(s));
                },
            };
            if let Some(owner) = remote_partition(
                tablet,
                table_mapping,
                &partition_map,
                write_source,
            ) {
                let local: PartitionId = partition_map.local_partition();
                let s = misrouted(
                    name.as_str(),
                    " during prepare",
                    owner,
                    local,
                    "Coordinator routed this transaction to the wrong participant.",
                );
                proof {
                    reveal_strlit("' rejected");
                    reveal_strlit(" during prepare");
                    reveal_strlit(": owned by ");
                    reveal_strlit("' rejected during prepare: owned by ");
                    reveal_strlit("). ");
                    reveal_strlit("Coordinator routed this transaction to the wrong participant.");
                    reveal_strlit("). Coordinator routed this transaction to the wrong participant.");
                    assert(s@ =~= misrouted_prepare_refusal(name@, owner, local).text);
                }
                return Err(CommitError::new(s));
            }
            i += 1;
        }
        assert(writes@.take(i as int) =~= writes@);
        Ok(())
    }

    /// Refuses a commit's writes to tables that another node owns.
    pub fn ensure_commit_ownership(
        &self,
        writes: &Vec<DocumentWrite>,
        table_mapping: &TableMapping,
        write_source: &WriteSource,
    ) -> (r: Result<(), CommitError>)
        ensures
            objection(r) == self@.commit_ownership_objection(
                writes@,
                table_mapping.tables@,
                write_source@,
            ),
    {
        let partition_map = match &self.placement {
            Some(p) => p.partition_map(),
            None => {
                return Ok(());
            },
        };
        let mut i: usize = 0;
        while i < writes.len()
            invariant
                i <= writes@.len(),
                commit_objection(
                    writes@.take(i as int),
                    table_mapping.tables@,
                    partition_map@,
                    write_source@,
                ) is None,
                self@.placement matches Some(p) && partition_map@ == p.1.routing(p.0),
            decreases writes@.len() - i,
        {
            let tablet: TabletId = writes[i].id.tablet;
            proof {
                assert(writes@.take(i + 1).drop_last() =~= writes@.take(i as int));
                lemma_commit_objection_sticks(
                    writes@,
                    i + 1,
                    table_mapping.tables@,
                    partition_map@,
                    write_source@,
                );
            }
            if let Some(name) = table_mapping.tablet_name(tablet) {
                if let Some(owner) = remote_partition(
                    tablet,
                    table_mapping,
                    &partition_map,
                    write_source,
                ) {
                    let local: PartitionId = partition_map.local_partition();
                    let s = misrouted(
                        name.as_str(),
                        "",
                        owner,
                        local,
                        "Route this mutation to the correct partition owner.",
                    );
                    proof {
                        reveal_strlit("' rejected");
                        reveal_strlit("");
                        reveal_strlit(": owned by ");
                        reveal_strlit("' rejected: owned by ");
                        reveal_strlit("). ");
                        reveal_strlit("Route this mutation to the correct partition owner.");
                        reveal_strlit("). Route this mutation to the correct partition owner.");
                        assert(s@ =~= misrouted_commit_refusal(name@, owner, local).text);
                    }
                    return Err(CommitError::new(s));
                }
            }
            i += 1;
        }
        assert(writes@.take(i as int) =~= writes@);
        Ok(())
    }

    /// Refuses a transaction that read other partitions at a timestamp up to
    /// which this node has not received their writes.
    pub fn validate_remote_read_frontiers(
        &self,
        begin_ts: u64,
        reads: &ReadSet,
        table_mapping: &TableMapping,
        write_source: &WriteSource,
    ) -> (r: Result<(), CommitError>)
        ensures
            objection(r) == self@.frontier_objection(
                begin_ts,
                reads.tablets(),
                table_mapping.tables@,
                write_source@,
            ),
    {
        let partition_map = match &self.placement {
            Some(p) => p.partition_map(),
            None => {
                return Ok(());
            },
        };
        let stale = stale_replica_frontiers(
            &self.frontiers,
            begin_ts,
            reads,
            table_mapping,
            &partition_map,
            write_source,
        );
        if stale.len() == 0 {
            return Ok(());
        }
        let mut s: String = String::new();
        s.append("Cross-partition OCC requires remote read frontiers >= ");
        text::push_dec(&mut s, begin_ts);
        s.append(", but found ");
        push_frontiers(&mut s, &stale);
        assert(s@ =~= stale_refusal(stale@, begin_ts, write_source@).text);
        Err(CommitError::system_occ(s, Some(begin_ts), write_source))
    }
}

proof fn lemma_prepare_objection_sticks(
    writes: Seq<DocumentWrite>,
    i: int,
    tables: Seq<TableInfo>,
    routing: Routing,
    source: Option<Seq<char>>,
)
    requires
        0 <= i <= writes.len(),
    ensures
        prepare_objection(writes.take(i), tables, routing, source) is Some ==> prepare_objection(
            writes,
            tables,
            routing,
            source,
        ) == prepare_objection(writes.take(i), tables, routing, source),
    decreases writes.len() - i,
{
    if i < writes.len() {
        lemma_prepare_objection_sticks(writes, i + 1, tables, routing, source);
        assert(writes.take(i + 1).drop_last() =~= writes.take(i));
    } else {
        assert(writes.take(i) =~= writes);
    }
}

proof fn lemma_commit_objection_sticks(
    writes: Seq<DocumentWrite>,
    i: int,
    tables: Seq<TableInfo>,
    routing: Routing,
    source: Option<Seq<char>>,
)
    requires
        0 <= i <= writes.len(),
    ensures
        commit_objection(writes.take(i), tables, routing, source) is Some ==> commit_objection(
            writes,
            tables,
            routing,
            source,
        ) == commit_objection(writes.take(i), tables, routing, source),
    decreases writes.len() - i,
{
    if i < writes.len() {
        lemma_commit_objection_sticks(writes, i + 1, tables, routing, source);
        assert(writes.take(i + 1).drop_last() =~= writes.take(i));
    } else {
        assert(writes.take(i) =~= writes);
    }
}

/// A partition that owns one of the tables is one of the owners.
pub proof fn lemma_remote_owner_is_listed(
    tablets: Seq<TabletId>,
    i: int,
    tables: Seq<TableInfo>,
    routing: Routing,
    source: Option<Seq<char>>,
)
    requires
        0 <= i < tablets.len(),
    ensures
        remote_owner(tablets[i], tables, routing, source) matches Some(p) ==> remote_owners(
            tablets,
            tables,
            routing,
            source,
        ).contains(p.0),
    decreases tablets.len(),
{
    if i < tablets.len() - 1 {
        assert(tablets.drop_last()[i] == tablets[i]);
        lemma_remote_owner_is_listed(tablets.drop_last(), i, tables, routing, source);
    }
}

proof fn lemma_owners_finite(
    tablets: Seq<TabletId>,
    tables: Seq<TableInfo>,
    routing: Routing,
    source: Option<Seq<char>>,
)
    ensures
        remote_owners(tablets, tables, routing, source).finite(),
    decreases tablets.len(),
{
    if tablets.len() > 0 {
        lemma_owners_finite(tablets.drop_last(), tables, routing, source);
    }
}

proof fn lemma_stale_lists(partitions: Seq<u32>, i: int, frontiers: Map<u32, u64>, begin_ts: u64)
    requires
        0 <= i < partitions.len(),
        frontier_of(frontiers, partitions[i]) < begin_ts,
    ensures
        stale_in(partitions, frontiers, begin_ts).len() > 0,
    decreases partitions.len(),
{
    if i < partitions.len() - 1 {
        assert(partitions.drop_last()[i] == partitions[i]);
        lemma_stale_lists(partitions.drop_last(), i, frontiers, begin_ts);
    }
}

/// A transaction whose reads of other partitions pass the check read each of
/// them at a timestamp up to which this node has received its writes.
pub proof fn accepted_reads_are_current(
    state: CommitterState,
    begin_ts: u64,
    tablets: Seq<TabletId>,
    tables: Seq<TableInfo>,
    source: Option<Seq<char>>,
    i: int,
)
    requires
        state.placement is Some,
        state.frontier_objection(begin_ts, tablets, tables, source) is None,
        0 <= i < tablets.len(),
    ensures
        remote_owner(
            tablets[i],
            tables,
            state.routing(),
            source,
        ) matches Some(p) ==> frontier_of(state.frontiers, p.0) >= begin_ts,
{
    let routing = state.routing();
    if let Some(p) = remote_owner(tablets[i], tables, routing, source) {
        let owners = remote_owners(tablets, tables, routing, source);
        lemma_remote_owner_is_listed(tablets, i, tables, routing, source);
        lemma_owners_finite(tablets, tables, routing, source);
        ordered::lemma_ascending_u32(owners);
        let q = ordered::ascending_u32(owners);
        assert(q.to_set().contains(p.0));
        let j = choose|j: int| 0 <= j < q.len() && q[j] == p.0;
        if frontier_of(state.frontiers, p.0) < begin_ts {
            lemma_stale_lists(q, j, state.frontiers, begin_ts);
        }
    }
}

/// A prepare that passes the ownership check writes only tables that no other
/// partition owns.
pub proof fn accepted_prepares_are_local(
    writes: Seq<DocumentWrite>,
    i: int,
    tables: Seq<TableInfo>,
    routing: Routing,
    source: Option<Seq<char>>,
)
    requires
        prepare_objection(writes, tables, routing, source) is None,
        0 <= i < writes.len(),
    ensures
        remote_owner(writes[i].id.tablet, tables, routing, source) is None,
    decreases writes.len(),
{
    if i < writes.len() - 1 {
        assert(writes.drop_last()[i] == writes[i]);
        accepted_prepares_are_local(writes.drop_last(), i, tables, routing, source);
    }
}

/// A commit that passes the ownership check writes only tables that no other
/// partition owns.
pub proof fn accepted_commits_are_local(
    writes: Seq<DocumentWrite>,
    i: int,
    tables: Seq<TableInfo>,
    routing: Routing,
    source: Option<Seq<char>>,
)
    requires
        commit_objection(writes, tables, routing, source) is None,
        0 <= i < writes.len(),
    ensures
        remote_owner(writes[i].id.tablet, tables, routing, source) is None,
    decreases writes.len(),
{
    if i < writes.len() - 1 {
        assert(writes.drop_last()[i] == writes[i]);
        accepted_commits_are_local(writes.drop_last(), i, tables, routing, source);
    }
}

/// A table belongs to another partition exactly where it is known, is coordinated,
/// and by a partition other than this one.
pub proof fn remote_tables_are_coordinated_elsewhere(
    tablet: TabletId,
    tables: Seq<TableInfo>,
    routing: Routing,
    source: Option<Seq<char>>,
    p: PartitionId,
)
    ensures
        remote_owner(tablet, tables, routing, source) == Some(p) <==> {
            &&& documents::name_of(tables, tablet) matches Some(name) && routing.routed(
                name,
                source,
            ) == Some(p)
            &&& p != routing.local
        },
{
}

proof fn lemma_owners_own(
    tablets: Seq<TabletId>,
    tables: Seq<TableInfo>,
    routing: Routing,
    source: Option<Seq<char>>,
    p: u32,
)
    requires
        remote_owners(tablets, tables, routing, source).contains(p),
    ensures
        exists|i: int|
            0 <= i < tablets.len() && remote_owner(#[trigger] tablets[i], tables, routing, source)
                == Some(PartitionId(p)),
    decreases tablets.len(),
{
    if tablets.len() > 0 {
        let front = tablets.drop_last();
        let n = tablets.len() - 1;
        assert(tablets[n] == tablets.last());
        if remote_owner(tablets[n], tables, routing, source) != Some(PartitionId(p)) {
            lemma_owners_own(front, tables, routing, source, p);
            let i = choose|i: int|
                0 <= i < front.len() && remote_owner(
                    #[trigger] front[i],
                    tables,
                    routing,
                    source,
                ) == Some(PartitionId(p));
            assert(tablets[i] == front[i]);
        }
    }
}

/// The other partitions of a read are exactly those that own a table of it.
pub proof fn remote_owners_own_a_table(
    tablets: Seq<TabletId>,
    tables: Seq<TableInfo>,
    routing: Routing,
    source: Option<Seq<char>>,
    p: u32,
)
    ensures
        remote_owners(tablets, tables, routing, source).contains(p) <==> exists|i: int|
            0 <= i < tablets.len() && remote_owner(#[trigger] tablets[i], tables, routing, source)
                == Some(PartitionId(p)),
{
    if remote_owners(tablets, tables, routing, source).contains(p) {
        lemma_owners_own(tablets, tables, routing, source, p);
    }
    if exists|i: int|
        0 <= i < tablets.len() && remote_owner(#[trigger] tablets[i], tables, routing, source)
            == Some(PartitionId(p)) {
        let i = choose|i: int|
            0 <= i < tablets.len() && remote_owner(#[trigger] tablets[i], tables, routing, source)
                == Some(PartitionId(p));
        lemma_remote_owner_is_listed(tablets, i, tables, routing, source);
    }
}

proof fn lemma_stale_is_behind(partitions: Seq<u32>, frontiers: Map<u32, u64>, begin_ts: u64)
    ensures
        forall|k: int|
            0 <= k < stale_in(partitions, frontiers, begin_ts).len() ==> ({
                let (p, ts) = #[trigger] stale_in(partitions, frontiers, begin_ts)[k];
                &&& partitions.contains(p.0)
                &&& ts < begin_ts
                &&& frontiers.contains_key(p.0) ==> ts == frontiers[p.0]
                &&& !frontiers.contains_key(p.0) ==> ts == 0
            }),
    decreases partitions.len(),
{
    if partitions.len() > 0 {
        let front = partitions.drop_last();
        let rest = stale_in(front, frontiers, begin_ts);
        let all = stale_in(partitions, frontiers, begin_ts);
        lemma_stale_is_behind(front, frontiers, begin_ts);
        assert forall|k: int| 0 <= k < all.len() implies ({
            let (p, ts) = #[trigger] all[k];
            &&& partitions.contains(p.0)
            &&& ts < begin_ts
            &&& frontiers.contains_key(p.0) ==> ts == frontiers[p.0]
            &&& !frontiers.contains_key(p.0) ==> ts == 0
        }) by {
            if k < rest.len() {
                assert(all[k] == rest[k]);
                let j = choose|j: int| 0 <= j < front.len() && front[j] == rest[k].0.0;
                assert(partitions[j] == rest[k].0.0);
            } else {
                assert(partitions[partitions.len() - 1] == all[k].0.0);
            }
        }
    }
}

/// Reads are refused exactly where one of them is of another partition whose writes
/// up to where the transaction began have not all arrived.
pub proof fn reads_are_refused_where_writes_may_be_missing(
    state: CommitterState,
    begin_ts: u64,
    tablets: Seq<TabletId>,
    tables: Seq<TableInfo>,
    source: Option<Seq<char>>,
)
    ensures
        state.placement is None ==> state.frontier_objection(begin_ts, tablets, tables, source) is None,
        state.placement matches Some(p) ==> (state.frontier_objection(
            begin_ts,
            tablets,
            tables,
            source,
        ) is Some <==> exists|i: int|
            0 <= i < tablets.len() && (remote_owner(
                #[trigger] tablets[i],
                tables,
                p.1.routing(p.0),
                source,
            ) matches Some(owner) && begin_ts > 0 && (state.frontiers.contains_key(owner.0)
                ==> state.frontiers[owner.0] < begin_ts))),
        state.frontier_objection(begin_ts, tablets, tables, source) matches Some(e) ==> e.occ
            == Some((Some(begin_ts), source)),
{
    if let Some(p) = state.placement {
        let routing = p.1.routing(p.0);
        let owners = remote_owners(tablets, tables, routing, source);
        let q = ordered::ascending_u32(owners);
        lemma_owners_finite(tablets, tables, routing, source);
        ordered::lemma_ascending_u32(owners);
        let stale = stale_in(q, state.frontiers, begin_ts);
        lemma_stale_is_behind(q, state.frontiers, begin_ts);
        if stale.len() > 0 {
            let s = stale[0];
            assert(q.contains(s.0.0));
            assert(q.to_set().contains(s.0.0));
            lemma_owners_own(tablets, tables, routing, source, s.0.0);
        }
        assert forall|i: int|
            0 <= i < tablets.len() && (remote_owner(
                #[trigger] tablets[i],
                tables,
                routing,
                source,
            ) matches Some(owner) && begin_ts > 0 && (state.frontiers.contains_key(owner.0)
                ==> state.frontiers[owner.0] < begin_ts)) implies stale.len() > 0 by {
            let owner = remote_owner(tablets[i], tables, routing, source)->0;
            lemma_remote_owner_is_listed(tablets, i, tables, routing, source);
            assert(q.to_set().contains(owner.0));
            let j = choose|j: int| 0 <= j < q.len() && q[j] == owner.0;
            lemma_stale_lists(q, j, state.frontiers, begin_ts);
        }
    }
}

/// A prepare passes the ownership check exactly where this node has no placement, or
/// every table it writes is known and is no other partition's.
pub proof fn prepares_are_accepted_where_their_tables_are(
    state: CommitterState,
    writes: Seq<DocumentWrite>,
    tables: Seq<TableInfo>,
    source: Option<Seq<char>>,
)
    ensures
        state.placement is None ==> state.ownership_objection(writes, tables, source) is None,
        state.placement matches Some(p) ==> (state.ownership_objection(writes, tables, source) is None
            <==> forall|i: int|
            0 <= i < writes.len() ==> documents::name_of(tables, (#[trigger] writes[i]).id.tablet)
                is Some && remote_owner(writes[i].id.tablet, tables, p.1.routing(p.0), source) is None),
    decreases writes.len(),
{
    if writes.len() > 0 {
        let front = writes.drop_last();
        let n = writes.len() - 1;
        prepares_are_accepted_where_their_tables_are(state, front, tables, source);
        assert(writes[n] == writes.last());
        if let Some(p) = state.placement {
            let fine = |w: DocumentWrite|
                documents::name_of(tables, w.id.tablet) is Some && remote_owner(
                    w.id.tablet,
                    tables,
                    p.1.routing(p.0),
                    source,
                ) is None;
            assert forall|i: int| 0 <= i < front.len() implies fine(#[trigger] front[i]) == fine(
                writes[i],
            ) by {}
            if forall|i: int| 0 <= i < writes.len() ==> fine(#[trigger] writes[i]) {
                assert forall|i: int| 0 <= i < front.len() implies fine(#[trigger] front[i]) by {
                    assert(fine(writes[i]));
                }
                assert(fine(writes[n]));
            }
            if state.ownership_objection(writes, tables, source) is None {
                assert forall|i: int| 0 <= i < writes.len() implies fine(#[trigger] writes[i]) by {
                    if i < n {
                        assert(fine(front[i]));
                    }
                }
            }
        }
    }
}

/// A commit passes the ownership check exactly where this node has no placement, or
/// no table it writes is another partition's.
pub proof fn commits_are_accepted_where_their_tables_are(
    state: CommitterState,
    writes: Seq<DocumentWrite>,
    tables: Seq<TableInfo>,
    source: Option<Seq<char>>,
)
    ensures
        state.placement is None ==> state.commit_ownership_objection(writes, tables, source) is None,
        state.placement matches Some(p) ==> (state.commit_ownership_objection(
            writes,
            tables,
            source,
        ) is None <==> forall|i: int|
            0 <= i < writes.len() ==> remote_owner(
                (#[trigger] writes[i]).id.tablet,
                tables,
                p.1.routing(p.0),
                source,
            ) is None),
    decreases writes.len(),
{
    if writes.len() > 0 {
        let front = writes.drop_last();
        let n = writes.len() - 1;
        commits_are_accepted_where_their_tables_are(state, front, tables, source);
        assert(writes[n] == writes.last());
        if let Some(p) = state.placement {
            let fine = |w: DocumentWrite|
                remote_owner(w.id.tablet, tables, p.1.routing(p.0), source) is None;
            assert forall|i: int| 0 <= i < front.len() implies fine(#[trigger] front[i]) == fine(
                writes[i],
            ) by {}
            if forall|i: int| 0 <= i < writes.len() ==> fine(#[trigger] writes[i]) {
                assert forall|i: int| 0 <= i < front.len() implies fine(#[trigger] front[i]) by {
                    assert(fine(writes[i]));
                }
                assert(fine(writes[n]));
            }
            if state.commit_ownership_objection(writes, tables, source) is None {
                assert forall|i: int| 0 <= i < writes.len() implies fine(#[trigger] writes[i]) by {
                    if i < n {
                        assert(fine(front[i]));
                    }
                }
            }
        }
    }
}

/// Only the leader of a group writes; a node without a group needs no leave. Each
/// refusal is counted, and nothing else is.
pub proof fn only_leaders_write(state: CommitterState, before: Seq<Measured>)
    ensures
        state.leadership_objection() is Some <==> (state.raft matches Some(raft)
            && !raft.is_leader),
        state.leadership_objection() is None ==> state.after_leadership_check(before) == before,
        state.leadership_objection() is Some ==> {
            &&& state.after_leadership_check(before).len() == before.len() + 1
            &&& state.after_leadership_check(before).drop_last() == before
        },
{
    if state.leadership_objection() is Some {
        assert(state.after_leadership_check(before).drop_last() =~= before);
    }
}

/// The partitions that cannot be read yet are those whose writes have arrived only up
/// to before the snapshot, each with how far it has come, in order.
pub proof fn late_partitions_are_listed(
    partitions: Seq<u32>,
    p: u32,
    frontiers: Map<u32, u64>,
    begin_ts: u64,
)
    ensures
        stale_in(Seq::empty(), frontiers, begin_ts).len() == 0,
        frontiers.contains_key(p) && frontiers[p] >= begin_ts ==> stale_in(
            partitions.push(p),
            frontiers,
            begin_ts,
        ) == stale_in(partitions, frontiers, begin_ts),
        frontiers.contains_key(p) && frontiers[p] < begin_ts ==> stale_in(
            partitions.push(p),
            frontiers,
            begin_ts,
        ) == stale_in(partitions, frontiers, begin_ts).push((PartitionId(p), frontiers[p])),
        !frontiers.contains_key(p) && begin_ts > 0 ==> stale_in(
            partitions.push(p),
            frontiers,
            begin_ts,
        ) == stale_in(partitions, frontiers, begin_ts).push((PartitionId(p), 0u64)),
{
    assert(partitions.push(p).drop_last() == partitions);
}

/// A write that went to the wrong node is told its owner and the node, in this order,
/// and one that went to a follower is told its leader.
pub proof fn misrouted_writes_are_sent_on(
    raft: RaftState,
    table: Seq<char>,
    owner: PartitionId,
    local: PartitionId,
    stale: Seq<(PartitionId, u64)>,
    begin_ts: u64,
    source: Option<Seq<char>>,
)
    ensures
        not_leader_refusal(raft).text == "Not the Raft leader for partition "@
            + raft.partition.text() + ". Current leader: node "@
            + text::dec(raft.leader_id as nat) + ". Forward this mutation to the leader."@,
        not_leader_refusal(raft).occ is None,
        misrouted_prepare_refusal(table, owner, local).text == "Write to table '"@ + table
            + "' rejected during prepare: owned by "@ + owner.text() + ", not this node ("@
            + local.text() + "). Coordinator routed this transaction to the wrong participant."@,
        misrouted_prepare_refusal(table, owner, local).occ is None,
        misrouted_commit_refusal(table, owner, local).text == "Write to table '"@ + table
            + "' rejected: owned by "@ + owner.text() + ", not this node ("@ + local.text()
            + "). Route this mutation to the correct partition owner."@,
        misrouted_commit_refusal(table, owner, local).occ is None,
        stale_refusal(stale, begin_ts, source).text == "Cross-partition OCC requires remote read frontiers >= "@
            + text::dec(begin_ts as nat) + ", but found "@ + frontiers_text(stale),
        stale_refusal(stale, begin_ts, source).occ is Some,
{
}

} // verus!
