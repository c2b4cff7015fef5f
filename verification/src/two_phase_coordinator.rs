//! Coordinating commits that touch several partitions.
//!
//! The node that received a mutation coordinates it: it sorts the writes by the
//! partitions that own them, takes one commit timestamp for all, asks each
//! participant to prepare, and then either has all of them commit, or records
//! that those that may have prepared are rolled back.
use crate::committer::staging::{FinalTransaction, PrepareResult};
use crate::committer::{self, CommitError, Refusal};
use crate::documents;
use crate::documents::{Content, Document, DocumentWrite, TableInfo, TableMapping, INDEX_TABLE, TABLES_TABLE};
use crate::names;
use crate::names::{TableName, WriteSource};
use crate::partition;
use crate::partition::{PartitionId, PartitionMap, Routing};
use crate::text;
use std::collections::BTreeMap;
use vstd::prelude::*;
use vstd::string::*;

pub mod coordination;
pub mod decision;
pub mod errors;

verus! {

broadcast use {vstd::std_specs::btree::group_btree_axioms, vstd::laws_cmp::group_laws_cmp};

/// Whom a transaction's writes belong to.
#[derive(Debug)]
pub enum TransactionClassification {
    /// All writes are this node's: the commit needs nobody else.
    SinglePartition,
    /// All writes belong to one other partition, which the transaction is sent
    /// to.
    RemoteSinglePartition { owner: PartitionId },
    /// The writes belong to several partitions. They are listed by owner.
    CrossPartition { partitions: BTreeMap<u32, Vec<usize>> },
}

/// The row that a write leaves, or, of a deletion, the row that it takes away.
pub open spec fn written_row(w: DocumentWrite) -> Option<Document> {
    match w.new_document {
        Some(d) => Some(*d),
        None => match w.old_document {
            Some((d, _)) => Some(*d),
            None => None,
        },
    }
}

/// The table that a row of the `_tables` or `_index` table describes.
pub open spec fn described_table(table: Seq<char>, row: Document, tables: Seq<TableInfo>) -> Option<Seq<char>> {
    if table == TABLES_TABLE@ {
        match row.content {
            Content::Table(m) => Some(m.name@),
            _ => None,
        }
    } else {
        match row.content {
            Content::Index(m) => documents::name_of(tables, m.table),
            _ => None,
        }
    }
}

/// The owner of a write that describes a user's table.
pub open spec fn catalog_owner(w: DocumentWrite, tables: Seq<TableInfo>, routing: Routing) -> Option<PartitionId> {
    match documents::name_of(tables, w.id.tablet) {
        None => None,
        Some(table) => if table != TABLES_TABLE@ && table != INDEX_TABLE@ {
            None
        } else {
            match written_row(w) {
                None => None,
                Some(row) => match described_table(table, row, tables) {
                    None => None,
                    Some(name) => if names::is_system_name(name) {
                        None
                    } else {
                        Some(routing.owner(name))
                    },
                },
            }
        },
    }
}

/// The owner of a write, if it has one: a write that describes a user's table
/// goes where the table is.
pub open spec fn write_owner(
    w: DocumentWrite,
    tables: Seq<TableInfo>,
    routing: Routing,
    source: Option<Seq<char>>,
) -> Option<PartitionId> {
    match documents::name_of(tables, w.id.tablet) {
        None => None,
        Some(table) => match routing.routed(table, source) {
            Some(p) => Some(p),
            None => catalog_owner(w, tables, routing),
        },
    }
}

/// The positions of writes by owner.
pub open spec fn owned(
    writes: Seq<DocumentWrite>,
    tables: Seq<TableInfo>,
    routing: Routing,
    source: Option<Seq<char>>,
) -> Map<u32, Seq<usize>>
    decreases writes.len(),
{
    if writes.len() == 0 {
        Map::empty()
    } else {
        let rest = owned(writes.drop_last(), tables, routing, source);
        let at = (writes.len() - 1) as usize;
        match write_owner(writes.last(), tables, routing, source) {
            None => rest,
            Some(p) => if rest.contains_key(p.0) {
                rest.insert(p.0, rest[p.0].push(at))
            } else {
                rest.insert(p.0, seq![at])
            },
        }
    }
}

/// Positions by partition, as contracts speak of them.
pub open spec fn listed(m: Map<u32, Vec<usize>>) -> Map<u32, Seq<usize>> {
    m.map_values(|v: Vec<usize>| v@)
}

fn catalog_table_name<'a>(table: &str, row: &'a Document, table_mapping: &'a TableMapping) -> (r: Option<
    &'a TableName,
>)
    ensures
        match r {
            Some(n) => described_table(table@, *row, table_mapping.tables@) == Some(n@),
            None => described_table(table@, *row, table_mapping.tables@) is None,
        },
{
    if text::same(table, TABLES_TABLE) {
        match &row.content {
            Content::Table(m) => Some(&m.name),
            _ => None,
        }
    } else {
        match &row.content {
            Content::Index(m) => table_mapping.tablet_name(m.table),
            _ => None,
        }
    }
}

/// The owner of a write that describes a user's table.
pub fn routed_partition_for_catalog_write(
    write: &DocumentWrite,
    table_mapping: &TableMapping,
    partition_map: &PartitionMap,
) -> (r: Option<PartitionId>)
    ensures
        r == catalog_owner(*write, table_mapping.tables@, partition_map@),
{
    let table = match table_mapping.tablet_name(write.id.tablet) {
        Some(t) => t,
        None => {
            return None;
        },
    };
    if !text::same(table.as_str(), TABLES_TABLE) && !text::same(table.as_str(), INDEX_TABLE) {
        return None;
    }
    let row: &Document = match &write.new_document {
        Some(d) => d,
        None => match &write.old_document {
            Some(p) => &p.0,
            None => {
                return None;
            },
        },
    };
    match catalog_table_name(table.as_str(), row, table_mapping) {
        None => None,
        Some(name) => {
            if name.is_system() {
                None
            } else {
                Some(partition_map.partition_for_table(name))
            }
        },
    }
}

/// The owner of a write, if it has one.
pub fn routed_partition_for_write(
    write: &DocumentWrite,
    table_mapping: &TableMapping,
    partition_map: &PartitionMap,
    write_source: &WriteSource,
) -> (r: Option<PartitionId>)
    ensures
        r == write_owner(*write, table_mapping.tables@, partition_map@, write_source@),
{
    let table = match table_mapping.tablet_name(write.id.tablet) {
        Some(t) => t,
        None => {
            return None;
        },
    };
    match partition::routed_partition_for_table(table, partition_map, write_source) {
        Some(p) => Some(p),
        None => routed_partition_for_catalog_write(write, table_mapping, partition_map),
    }
}

/// Lists the positions of a transaction's writes by owner.
pub fn participant_write_indexes(
    transaction: &FinalTransaction,
    partition_map: &PartitionMap,
    write_source: &WriteSource,
) -> (r: BTreeMap<u32, Vec<usize>>)
    ensures
        listed(r@) == owned(
            transaction.writes@,
            transaction.table_mapping.tables@,
            partition_map@,
            write_source@,
        ),
{
    let ghost tables = transaction.table_mapping.tables@;
    let mut indexes: BTreeMap<u32, Vec<usize>> = BTreeMap::new();
    assert(listed(indexes@) =~= Map::<u32, Seq<usize>>::empty());
    let mut i: usize = 0;
    while i < transaction.writes.len()
        invariant
            i <= transaction.writes@.len(),
            tables == transaction.table_mapping.tables@,
            listed(indexes@) == owned(
                transaction.writes@.take(i as int),
                tables,
                partition_map@,
                write_source@,
            ),
        decreases transaction.writes@.len() - i,
    {
        let ghost before = indexes@;
        assert(transaction.writes@.take(i + 1).drop_last() =~= transaction.writes@.take(i as int));
        if let Some(p) = routed_partition_for_write(
            &transaction.writes[i],
            &transaction.table_mapping,
            partition_map,
            write_source,
        ) {
            let mut list: Vec<usize> = match indexes.remove(&p.0) {
                Some(v) => v,
                None => Vec::new(),
            };
            let ghost had = list@;
            list.push(i);
            indexes.insert(p.0, list);
            proof {
                assert(listed(before).dom() =~= before.dom());
                if before.contains_key(p.0) {
                    assert(listed(before)[p.0] == had);
                    assert(listed(indexes@) =~= listed(before).insert(p.0, had.push(i)));
                } else {
                    assert(had.push(i) =~= seq![i]);
                    assert(listed(indexes@) =~= listed(before).insert(p.0, seq![i]));
                }
            }
        }
        i += 1;
    }
    assert(transaction.writes@.take(i as int) =~= transaction.writes@);
    indexes
}

/// A classification, as contracts speak of it.
pub enum Classification {
    SinglePartition,
    RemoteSinglePartition { owner: PartitionId },
    CrossPartition { partitions: Map<u32, Seq<usize>> },
}

impl View for TransactionClassification {
    type V = Classification;

    open spec fn view(&self) -> Classification {
        match self {
            TransactionClassification::SinglePartition => Classification::SinglePartition,
            TransactionClassification::RemoteSinglePartition { owner } =>
                Classification::RemoteSinglePartition { owner: *owner },
            TransactionClassification::CrossPartition { partitions } =>
                Classification::CrossPartition { partitions: listed(partitions@) },
        }
    }
}

/// What owners make of a transaction.
pub open spec fn classified(owners: Map<u32, Seq<usize>>, local: PartitionId) -> Classification {
    if owners.dom().is_empty() {
        Classification::SinglePartition
    } else if owners.dom().len() == 1 {
        let owner = PartitionId(owners.dom().choose());
        if owner == local {
            Classification::SinglePartition
        } else {
            Classification::RemoteSinglePartition { owner }
        }
    } else {
        Classification::CrossPartition { partitions: owners }
    }
}

/// Decides whom a transaction's writes belong to.
pub fn classify_transaction(
    transaction: &FinalTransaction,
    partition_map: &PartitionMap,
    write_source: &WriteSource,
) -> (r: TransactionClassification)
    ensures
        r@ == classified(
            owned(
                transaction.writes@,
                transaction.table_mapping.tables@,
                partition_map@,
                write_source@,
            ),
            partition_map@.local,
        ),
{
    let partitions = participant_write_indexes(transaction, partition_map, write_source);
    assert(listed(partitions@).dom() =~= partitions@.dom());
    let keys = crate::ordered::keys_u32(&partitions);
    proof {
        assert(keys@.no_duplicates()) by {
            assert forall|i: int, j: int|
                0 <= i < keys@.len() && 0 <= j < keys@.len() && i != j implies keys@[i] != keys@[j] by {
                if i < j {
                    assert(keys@[i] < keys@[j]);
                } else {
                    assert(keys@[j] < keys@[i]);
                }
            }
        }
        keys@.unique_seq_to_set();
    }
    if keys.len() == 0 {
        assert(keys@.to_set() =~= Set::<u32>::empty());
        return TransactionClassification::SinglePartition;
    }
    assert(keys@.to_set().contains(keys@[0]));
    if keys.len() == 1 {
        let owner = PartitionId(keys[0]);
        proof {
            let picked = partitions@.dom().choose();
            assert(keys@.to_set().contains(picked));
            let j = choose|j: int| 0 <= j < keys@.len() && keys@[j] == picked;
            assert(j == 0);
        }
        let local: PartitionId = partition_map.local_partition();
        if owner == local {
            return TransactionClassification::SinglePartition;
        }
        return TransactionClassification::RemoteSinglePartition { owner };
    }
    TransactionClassification::CrossPartition { partitions }
}

/// Said of a participant that prepared at another timestamp than it was asked to.
pub open spec fn prepared_elsewhere(participant: PartitionId, ts: u64, asked: u64) -> Refusal {
    committer::refused(
        "Participant "@ + participant.text() + " prepared at ts="@ + text::dec(ts as nat)
            + " but coordinator assigned ts="@ + text::dec(asked as nat),
    )
}

/// Refuses a participant that prepared at another timestamp than it was asked to.
pub fn verify_prepare_result(participant: PartitionId, prepare_ts: u64, result: PrepareResult) -> (r: Result<
    (),
    CommitError,
>)
    ensures
        committer::outcome(r) == if result.prepare_ts == prepare_ts {
            Ok::<(), Refusal>(())
        } else {
            Err(prepared_elsewhere(participant, result.prepare_ts, prepare_ts))
        },
{
    if result.prepare_ts == prepare_ts {
        return Ok(());
    }
    let mut s: String = String::new();
    s.append("Participant ");
    participant.push_to(&mut s);
    s.append(" prepared at ts=");
    text::push_dec(&mut s, result.prepare_ts);
    s.append(" but coordinator assigned ts=");
    text::push_dec(&mut s, prepare_ts);
    assert(s@ =~= prepared_elsewhere(participant, result.prepare_ts, prepare_ts).text);
    Err(CommitError::new(s))
}

/// Every write with an owner is listed, under its owner.
pub proof fn every_owned_write_is_listed(
    writes: Seq<DocumentWrite>,
    tables: Seq<TableInfo>,
    routing: Routing,
    source: Option<Seq<char>>,
    i: int,
)
    requires
        0 <= i < writes.len() <= usize::MAX,
        write_owner(writes[i], tables, routing, source) is Some,
    ensures
        ({
            let p = write_owner(writes[i], tables, routing, source)->0;
            let all = owned(writes, tables, routing, source);
            all.contains_key(p.0) && all[p.0].contains(i as usize)
        }),
    decreases writes.len(),
{
    let p = write_owner(writes[i], tables, routing, source)->0;
    let all = owned(writes, tables, routing, source);
    let rest = owned(writes.drop_last(), tables, routing, source);
    if i == writes.len() - 1 {
        if rest.contains_key(p.0) {
            assert(all[p.0][rest[p.0].len() as int] == i as usize);
        } else {
            assert(all[p.0][0] == i as usize);
        }
    } else {
        assert(writes.drop_last()[i] == writes[i]);
        every_owned_write_is_listed(writes.drop_last(), tables, routing, source, i);
        let k = choose|k: int| 0 <= k < rest[p.0].len() && rest[p.0][k] == i as usize;
        assert(all[p.0][k] == i as usize);
    }
}

/// The row that describes a user's table belongs to the owner of that table,
/// whether it is a row of the `_tables` or of the `_index` table, and whether it is
/// written or taken away: a table and its description have one writer.
pub proof fn descriptions_belong_to_the_owner_of_their_table(
    w: DocumentWrite,
    tables: Seq<TableInfo>,
    routing: Routing,
    row: Document,
    name: Seq<char>,
    source: Option<Seq<char>>,
)
    requires
        match w.new_document {
            Some(d) => row == *d,
            None => w.old_document matches Some(old) && row == *old.0,
        },
        ({
            ||| documents::name_of(tables, w.id.tablet) == Some("_tables"@) && (
            row.content matches Content::Table(m) && m.name@ == name)
            ||| documents::name_of(tables, w.id.tablet) == Some("_index"@) && (
            row.content matches Content::Index(m) && documents::name_of(tables, m.table) == Some(
                name,
            ))
        }),
        name.len() > 0,
        name[0] != '_',
    ensures
        catalog_owner(w, tables, routing) == Some(routing.owner(name)),
        catalog_owner(w, tables, routing) == routing.routed(name, source),
        source != Some("start_push"@) && source != Some("finish_push"@) ==> write_owner(
            w,
            tables,
            routing,
            source,
        ) == Some(routing.owner(name)),
{
    reveal_strlit("_tables");
    reveal_strlit("_index");
    assert("_tables"@.len() != "_index"@.len());
}

/// The owner of a write to the data of a user's table is the owner of the table, and
/// so is the owner of a write to its description.
pub proof fn data_and_descriptions_have_one_writer(
    data: DocumentWrite,
    description: DocumentWrite,
    row: Document,
    tables: Seq<TableInfo>,
    routing: Routing,
    name: Seq<char>,
    source: Option<Seq<char>>,
)
    requires
        documents::name_of(tables, data.id.tablet) == Some(name),
        documents::name_of(tables, description.id.tablet) == Some("_tables"@),
        description.new_document matches Some(d) && row == *d,
        row.content matches Content::Table(m) && m.name@ == name,
        name.len() > 0,
        name[0] != '_',
        source != Some("start_push"@),
        source != Some("finish_push"@),
    ensures
        write_owner(data, tables, routing, source) == Some(routing.owner(name)),
        write_owner(description, tables, routing, source) == write_owner(
            data,
            tables,
            routing,
            source,
        ),
{
    descriptions_belong_to_the_owner_of_their_table(
        description,
        tables,
        routing,
        row,
        name,
        source,
    );
}

/// A write has no owner where its table is not known, and one to a system table,
/// other than a description of a user's table, has none but for the two deploy
/// operations, whose writes are those of partition 0.
pub proof fn other_writes_are_owned_by_their_table(
    w: DocumentWrite,
    tables: Seq<TableInfo>,
    routing: Routing,
    source: Option<Seq<char>>,
)
    ensures
        documents::name_of(tables, w.id.tablet) is None ==> write_owner(w, tables, routing, source)
            is None,
        documents::name_of(tables, w.id.tablet) matches Some(name) ==> {
            &&& name.len() > 0 && name[0] != '_' ==> write_owner(w, tables, routing, source) == Some(
                routing.owner(name),
            )
            &&& name.len() > 0 && name[0] == '_' && (source == Some("start_push"@) || source
                == Some("finish_push"@)) ==> write_owner(w, tables, routing, source) == Some(
                PartitionId(0),
            )
            &&& name.len() > 0 && name[0] == '_' && name != "_tables"@ && name != "_index"@
                && source != Some("start_push"@) && source != Some("finish_push"@) ==> write_owner(
                w,
                tables,
                routing,
                source,
            ) is None
        },
{
}

proof fn lemma_owned_lists(
    writes: Seq<DocumentWrite>,
    tables: Seq<TableInfo>,
    routing: Routing,
    source: Option<Seq<char>>,
)
    requires
        writes.len() <= usize::MAX,
    ensures
        ({
            let all = owned(writes, tables, routing, source);
            &&& all.dom().finite()
            &&& forall|p: u32, k: int|
                all.contains_key(p) && 0 <= k < all[p].len() ==> (#[trigger] all[p][k])
                    < writes.len() && write_owner(
                    writes[all[p][k] as int],
                    tables,
                    routing,
                    source,
                ) == Some(PartitionId(p))
            &&& forall|p: u32| #[trigger] all.contains_key(p) ==> all[p].len() > 0
            &&& forall|p: u32, k: int, l: int|
                all.contains_key(p) && 0 <= k < l < all[p].len() ==> (#[trigger] all[p][k]) < (
                #[trigger] all[p][l])
        }),
    decreases writes.len(),
{
    if writes.len() > 0 {
        let front = writes.drop_last();
        lemma_owned_lists(front, tables, routing, source);
        let rest = owned(front, tables, routing, source);
        let all = owned(writes, tables, routing, source);
        let at = (writes.len() - 1) as usize;
        assert forall|p: u32, k: int| all.contains_key(p) && 0 <= k < all[p].len() implies (
        #[trigger] all[p][k]) < writes.len() && write_owner(
            writes[all[p][k] as int],
            tables,
            routing,
            source,
        ) == Some(PartitionId(p)) by {
            if rest.contains_key(p) && k < rest[p].len() {
                assert(all[p][k] == rest[p][k]);
                assert(front[rest[p][k] as int] == writes[rest[p][k] as int]);
            } else {
                assert(all[p][k] == at);
            }
        }
        assert forall|p: u32, k: int, l: int|
            all.contains_key(p) && 0 <= k < l < all[p].len() implies (#[trigger] all[p][k]) < (
        #[trigger] all[p][l]) by {
            if rest.contains_key(p) && l < rest[p].len() {
                assert(rest[p][k] < rest[p][l]);
            } else if rest.contains_key(p) {
                assert(all[p][k] == rest[p][k]);
                assert(rest[p][k] < front.len());
            }
        }
    }
}

/// The writes of a transaction are listed by owner: each write with an owner under
/// its owner and nowhere else, and nothing else is listed.
pub proof fn writes_are_listed_under_their_owner(
    writes: Seq<DocumentWrite>,
    tables: Seq<TableInfo>,
    routing: Routing,
    source: Option<Seq<char>>,
    p: u32,
    i: usize,
)
    requires
        writes.len() <= usize::MAX,
    ensures
        ({
            let all = owned(writes, tables, routing, source);
            (all.contains_key(p) && all[p].contains(i)) <==> (i < writes.len() && write_owner(
                writes[i as int],
                tables,
                routing,
                source,
            ) == Some(PartitionId(p)))
        }),
        owned(writes, tables, routing, source).contains_key(p) <==> exists|j: int|
            0 <= j < writes.len() && write_owner(#[trigger] writes[j], tables, routing, source)
                == Some(PartitionId(p)),
{
    let all = owned(writes, tables, routing, source);
    lemma_owned_lists(writes, tables, routing, source);
    if all.contains_key(p) {
        assert(all[p].len() > 0);
        let first = all[p][0];
        assert(write_owner(writes[first as int], tables, routing, source) == Some(PartitionId(p)));
        if all[p].contains(i) {
            let k = choose|k: int| 0 <= k < all[p].len() && all[p][k] == i;
            assert(all[p][k] == i);
        }
    }
    if i < writes.len() && write_owner(writes[i as int], tables, routing, source) == Some(
        PartitionId(p),
    ) {
        every_owned_write_is_listed(writes, tables, routing, source, i as int);
    }
    if exists|j: int|
        0 <= j < writes.len() && write_owner(#[trigger] writes[j], tables, routing, source) == Some(
            PartitionId(p),
        ) {
        let j = choose|j: int|
            0 <= j < writes.len() && write_owner(#[trigger] writes[j], tables, routing, source)
                == Some(PartitionId(p));
        every_owned_write_is_listed(writes, tables, routing, source, j);
    }
}

/// A transaction is committed here alone exactly where no write belongs to another
/// partition; it is sent away exactly where all that belong to any partition belong
/// to the same other one; and it is coordinated exactly where they belong to
/// several.
pub proof fn transactions_go_to_the_owners_of_their_writes(
    writes: Seq<DocumentWrite>,
    tables: Seq<TableInfo>,
    routing: Routing,
    source: Option<Seq<char>>,
)
    requires
        writes.len() <= usize::MAX,
    ensures
        match classified(owned(writes, tables, routing, source), routing.local) {
            Classification::SinglePartition => forall|i: int|
                0 <= i < writes.len() ==> (write_owner(
                    #[trigger] writes[i],
                    tables,
                    routing,
                    source,
                ) matches Some(p) ==> p == routing.local),
            Classification::RemoteSinglePartition { owner } => {
                &&& owner != routing.local
                &&& forall|i: int|
                    0 <= i < writes.len() ==> (write_owner(
                        #[trigger] writes[i],
                        tables,
                        routing,
                        source,
                    ) matches Some(p) ==> p == owner)
                &&& exists|i: int|
                    0 <= i < writes.len() && write_owner(
                        #[trigger] writes[i],
                        tables,
                        routing,
                        source,
                    ) == Some(owner)
            },
            Classification::CrossPartition { partitions } => {
                &&& partitions == owned(writes, tables, routing, source)
                &&& exists|i: int, j: int|
                    0 <= i < writes.len() && 0 <= j < writes.len() && write_owner(
                        #[trigger] writes[i],
                        tables,
                        routing,
                        source,
                    ) is Some && write_owner(#[trigger] writes[j], tables, routing, source) is Some
                        && write_owner(writes[i], tables, routing, source) != write_owner(
                        writes[j],
                        tables,
                        routing,
                        source,
                    )
            },
        },
{
    let all = owned(writes, tables, routing, source);
    lemma_owned_lists(writes, tables, routing, source);
    assert forall|i: int| 0 <= i < writes.len() implies (write_owner(
        #[trigger] writes[i],
        tables,
        routing,
        source,
    ) matches Some(p) ==> all.dom().contains(p.0)) by {
        if write_owner(writes[i], tables, routing, source) is Some {
            every_owned_write_is_listed(writes, tables, routing, source, i);
        }
    }
    if all.dom().is_empty() {
    } else if all.dom().len() == 1 {
        let owner = all.dom().choose();
        assert forall|x: u32| all.dom().contains(x) implies x == owner by {
            if x != owner {
                assert(all.dom().remove(owner).contains(x));
                assert(all.dom().remove(owner).len() == 0);
            }
        }
        assert(all[owner].len() > 0);
        let first = all[owner][0];
        assert(write_owner(writes[first as int], tables, routing, source) == Some(
            PartitionId(owner),
        ));
    } else {
        let a = all.dom().choose();
        let others = all.dom().remove(a);
        assert(others.len() > 0);
        let b = others.choose();
        assert(others.contains(b));
        assert(all.contains_key(a) && all.contains_key(b));
        assert(all[a].len() > 0 && all[b].len() > 0);
        let i = all[a][0] as int;
        let j = all[b][0] as int;
        assert(write_owner(writes[i], tables, routing, source) == Some(PartitionId(a)));
        assert(write_owner(writes[j], tables, routing, source) == Some(PartitionId(b)));
    }
}

/// A participant that prepared at another timestamp is named, with its timestamp first
/// and the one it was asked for second.
pub proof fn straying_participants_are_named(participant: PartitionId, ts: u64, asked: u64)
    ensures
        prepared_elsewhere(participant, ts, asked).text == "Participant "@
            + participant.text() + " prepared at ts="@ + text::dec(ts as nat)
            + " but coordinator assigned ts="@ + text::dec(asked as nat),
        prepared_elsewhere(participant, ts, asked).occ is None,
{
}

} // verus!
