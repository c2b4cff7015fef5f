//! What a commit tells the other nodes.
use super::index_metadata;
use super::Committer;
use crate::documents;
use crate::documents::{share, Document, DocumentLogEntry, DocumentUpdate, IndexEntry, TableInfo, TableMapping, INDEX_TABLE};
use crate::names::{TableName, TabletId, WriteSource};
use crate::ordered;
use crate::partition::PartitionId;
use crate::table_set::TableSet;
use crate::text;
use std::collections::BTreeMap;
use std::sync::Arc;
use vstd::prelude::*;
use vstd::string::*;

verus! {

broadcast use {vstd::std_specs::btree::group_btree_axioms, vstd::laws_cmp::group_laws_cmp};

/// A commit, as it is sent to other nodes. It names the tables it is about, for
/// each node stores them under its own names.
#[derive(Debug)]
pub struct CommitDelta {
    pub ts: u64,
    pub document_writes: Arc<Vec<DocumentLogEntry>>,
    pub document_updates: Arc<Vec<DocumentUpdate>>,
    pub index_writes: Arc<Vec<IndexEntry>>,
    pub write_source: Arc<WriteSource>,
    pub write_bytes: u64,
    pub tables: BTreeMap<u128, Arc<TableName>>,
    pub source_partition: Option<PartitionId>,
}

/// What a delta says.
#[verifier::ext_equal]
pub struct Delta {
    pub ts: u64,
    pub document_writes: Seq<DocumentLogEntry>,
    pub document_updates: Seq<DocumentUpdate>,
    pub index_writes: Seq<IndexEntry>,
    pub write_source: Option<Seq<char>>,
    pub write_bytes: u64,
    pub tables: Map<u128, Seq<char>>,
    pub source_partition: Option<PartitionId>,
}

impl View for CommitDelta {
    type V = Delta;

    open spec fn view(&self) -> Delta {
        Delta {
            ts: self.ts,
            document_writes: self.document_writes@,
            document_updates: self.document_updates@,
            index_writes: self.index_writes@,
            write_source: self.write_source@,
            write_bytes: self.write_bytes,
            tables: table_names(self.tables@),
            source_partition: self.source_partition,
        }
    }
}

impl Delta {
    /// The tables that the delta names.
    pub open spec fn touched(self) -> Set<Seq<char>> {
        self.tables.values()
    }

    /// Nothing but a partition's word that it has come as far as the timestamp.
    pub open spec fn heartbeat(self) -> bool {
        &&& self.source_partition is Some
        &&& self.document_writes.len() == 0
        &&& self.document_updates.len() == 0
        &&& self.index_writes.len() == 0
    }
}

/// A partition's word that it has come as far as `ts`.
pub open spec fn heartbeat_of(ts: u64, partition: PartitionId) -> Delta {
    Delta {
        ts,
        document_writes: Seq::empty(),
        document_updates: Seq::empty(),
        index_writes: Seq::empty(),
        write_source: Some("remote_read_frontier_heartbeat"@),
        write_bytes: 0,
        tables: Map::empty(),
        source_partition: Some(partition),
    }
}

impl CommitDelta {
    /// The tables that the delta names.
    pub fn touched_table_names(&self) -> (r: TableSet)
        ensures
            r@ == self@.touched(),
    {
        let keys = ordered::keys_u128(&self.tables);
        let ghost names = table_names(self.tables@);
        let mut r: TableSet = TableSet::new();
        let mut i: usize = 0;
        while i < keys.len()
            invariant
                i <= keys@.len(),
                names == table_names(self.tables@),
                keys@.to_set() == self.tables@.dom(),
                forall|t: Seq<char>| #[trigger] r@.contains(t) ==> names.values().contains(t),
                forall|j: int| 0 <= j < i ==> r@.contains(names[#[trigger] keys@[j]]),
            decreases keys@.len() - i,
        {
            assert(keys@.to_set().contains(keys@[i as int]));
            assert(names.contains_key(keys@[i as int]));
            if let Some(name) = self.tables.get(&keys[i]) {
                assert(names[keys@[i as int]] == name@);
                r.insert(name);
            }
            i += 1;
        }
        proof {
            assert forall|t: Seq<char>| names.values().contains(t) implies r@.contains(t) by {
                let k = choose|k: u128| #[trigger] names.contains_key(k) && names[k] == t;
                assert(keys@.to_set().contains(k));
                let j = choose|j: int| 0 <= j < keys@.len() && keys@[j] == k;
                assert(r@.contains(names[keys@[j]]));
            }
            assert(r@ =~= names.values());
        }
        r
    }

    /// Whether the delta is nothing but a partition's word of how far it has
    /// come.
    pub fn is_frontier_heartbeat(&self) -> (r: bool)
        ensures
            r == self@.heartbeat(),
    {
        self.source_partition.is_some() && self.document_writes.len() == 0
            && self.document_updates.len() == 0 && self.index_writes.len() == 0
    }
}

impl Committer {
    /// What this node tells the others when it has come as far as
    /// `frontier_ts`; nothing, unless it leads one of several partitions.
    pub fn publish_remote_read_frontier_heartbeat(&self, frontier_ts: u64) -> (r: Option<CommitDelta>)
        ensures
            r is Some == (self@.is_partitioned() && self@.leads()),
            r matches Some(d) ==> self@.placement is Some && d@ == heartbeat_of(
                frontier_ts,
                self@.routing().local,
            ),
    {
        if !self.sends_heartbeats() {
            return None;
        }
        match &self.placement {
            Some(placement) => {
                let r = CommitDelta {
                    ts: frontier_ts,
                    document_writes: Arc::new(Vec::new()),
                    document_updates: Arc::new(Vec::new()),
                    index_writes: Arc::new(Vec::new()),
                    write_source: Arc::new(WriteSource::new("remote_read_frontier_heartbeat")),
                    write_bytes: 0,
                    tables: BTreeMap::new(),
                    source_partition: Some(placement.local_partition()),
                };
                assert(r@ =~= heartbeat_of(frontier_ts, self@.routing().local));
                Some(r)
            },
            None => None,
        }
    }
}

/// What a node tells the others of how far it has come is a heartbeat.
pub proof fn frontier_words_are_heartbeats(ts: u64, partition: PartitionId)
    ensures
        heartbeat_of(ts, partition).heartbeat(),
        heartbeat_of(ts, partition).touched() == Set::<Seq<char>>::empty(),
{
    assert(heartbeat_of(ts, partition).touched() =~= Set::<Seq<char>>::empty());
}

/// The names of tables, by where they are stored.
pub open spec fn table_names(tables: Map<u128, Arc<TableName>>) -> Map<u128, Seq<char>> {
    tables.map_values(|n: Arc<TableName>| n@)
}

/// The names with that of `tablet`, if it was not there and is known.
pub open spec fn with_table(names: Map<u128, Seq<char>>, tables: Seq<TableInfo>, tablet: TabletId) -> Map<
    u128,
    Seq<char>,
> {
    if names.contains_key(tablet.0) {
        names
    } else {
        match documents::name_of(tables, tablet) {
            Some(n) => names.insert(tablet.0, n),
            None => names,
        }
    }
}

/// The names with that of the table that a row of the `_index` table is about.
pub open spec fn with_indexed(
    names: Map<u128, Seq<char>>,
    tables: Seq<TableInfo>,
    d: Option<Arc<Document>>,
) -> Map<u128, Seq<char>> {
    match d {
        Some(d) => match index_metadata::indexed_table(*d) {
            Some(tablet) => with_table(names, tables, tablet),
            None => names,
        },
        None => names,
    }
}

/// The names with those of the tables that one update is about.
pub open spec fn with_update(names: Map<u128, Seq<char>>, tables: Seq<TableInfo>, u: DocumentUpdate) -> Map<
    u128,
    Seq<char>,
> {
    let named = with_table(names, tables, u.id.tablet);
    if named.contains_key(u.id.tablet.0) && named[u.id.tablet.0] == INDEX_TABLE@ {
        with_indexed(with_indexed(named, tables, u.old_document), tables, u.new_document)
    } else {
        named
    }
}

/// The names of the tables that updates are about.
pub open spec fn names_in(updates: Seq<DocumentUpdate>, tables: Seq<TableInfo>) -> Map<u128, Seq<char>>
    decreases updates.len(),
{
    if updates.len() == 0 {
        Map::empty()
    } else {
        with_update(names_in(updates.drop_last(), tables), tables, updates.last())
    }
}

/// Adds the name of a table, if it is not there and is known.
pub fn insert_delta_table_mapping(
    table_mapping: &TableMapping,
    names: &mut BTreeMap<u128, Arc<TableName>>,
    tablet: TabletId,
)
    ensures
        table_names(final(names)@) == with_table(
            table_names(old(names)@),
            table_mapping.tables@,
            tablet,
        ),
{
    if !names.contains_key(&tablet.0) {
        if let Some(t) = table_mapping.find(tablet) {
            let name = share(&t.name);
            names.insert(tablet.0, name);
        }
    }
    assert(table_names(names@) =~= with_table(
        table_names(old(names)@),
        table_mapping.tables@,
        tablet,
    ));
}

fn insert_indexed_table(
    table_mapping: &TableMapping,
    names: &mut BTreeMap<u128, Arc<TableName>>,
    document: &Option<Arc<Document>>,
)
    ensures
        table_names(final(names)@) == with_indexed(
            table_names(old(names)@),
            table_mapping.tables@,
            *document,
        ),
{
    if let Some(d) = document {
        if let Some(tablet) = index_metadata::index_metadata_tablet_id(d) {
            insert_delta_table_mapping(table_mapping, names, tablet);
        }
    }
}

/// Says what a commit tells the other nodes: its writes, and the names of the
/// tables they are about, including the tables of the indexes it changes.
pub fn build_commit_delta(
    commit_ts: u64,
    ordered_updates: &Arc<Vec<DocumentUpdate>>,
    write_source: &Arc<WriteSource>,
    table_mapping: &TableMapping,
    write_bytes: u64,
    document_writes: &Arc<Vec<DocumentLogEntry>>,
    index_writes: &Arc<Vec<IndexEntry>>,
    source_partition: Option<PartitionId>,
) -> (r: CommitDelta)
    ensures
        r.ts == commit_ts,
        r.document_writes == *document_writes,
        r.document_updates == *ordered_updates,
        r.index_writes == *index_writes,
        r.write_source == *write_source,
        r.write_bytes == write_bytes,
        table_names(r.tables@) == names_in(ordered_updates@, table_mapping.tables@),
        r.source_partition == source_partition,
{
    let mut names: BTreeMap<u128, Arc<TableName>> = BTreeMap::new();
    assert(table_names(names@) =~= Map::<u128, Seq<char>>::empty());
    let mut i: usize = 0;
    while i < ordered_updates.len()
        invariant
            i <= ordered_updates@.len(),
            table_names(names@) == names_in(
                ordered_updates@.take(i as int),
                table_mapping.tables@,
            ),
        decreases ordered_updates@.len() - i,
    {
        assert(ordered_updates@.take(i + 1).drop_last() =~= ordered_updates@.take(i as int));
        let update = &ordered_updates[i];
        let tablet: TabletId = update.id.tablet;
        insert_delta_table_mapping(table_mapping, &mut names, tablet);
        let describes_index = match names.get(&tablet.0) {
            Some(name) => text::same(name.as_str(), INDEX_TABLE),
            None => false,
        };
        assert(describes_index == (table_names(names@).contains_key(tablet.0) && table_names(
            names@,
        )[tablet.0] == INDEX_TABLE@));
        if describes_index {
            insert_indexed_table(table_mapping, &mut names, &update.old_document);
            insert_indexed_table(table_mapping, &mut names, &update.new_document);
        }
        i += 1;
    }
    assert(ordered_updates@.take(i as int) =~= ordered_updates@);
    CommitDelta {
        ts: commit_ts,
        document_writes: share(document_writes),
        document_updates: share(ordered_updates),
        index_writes: share(index_writes),
        write_source: share(write_source),
        write_bytes,
        tables: names,
        source_partition,
    }
}

proof fn lemma_names_grow(names: Map<u128, Seq<char>>, tables: Seq<TableInfo>, u: DocumentUpdate)
    ensures
        names.submap_of(with_update(names, tables, u)),
{
}

/// A delta names every table it is about that the node knows.
pub proof fn deltas_name_their_tables(updates: Seq<DocumentUpdate>, tables: Seq<TableInfo>, i: int)
    requires
        0 <= i < updates.len(),
        documents::name_of(tables, updates[i].id.tablet) is Some,
    ensures
        names_in(updates, tables).contains_key(updates[i].id.tablet.0),
    decreases updates.len(),
{
    if i < updates.len() - 1 {
        assert(updates.drop_last()[i] == updates[i]);
        deltas_name_their_tables(updates.drop_last(), tables, i);
        lemma_names_grow(names_in(updates.drop_last(), tables), tables, updates.last());
    }
}

proof fn lemma_table_is_right(names: Map<u128, Seq<char>>, tables: Seq<TableInfo>, tablet: TabletId)
    requires
        forall|t: u128| #[trigger]
            names.contains_key(t) ==> documents::name_of(tables, TabletId(t)) == Some(names[t]),
    ensures
        forall|t: u128| #[trigger]
            with_table(names, tables, tablet).contains_key(t) ==> documents::name_of(
                tables,
                TabletId(t),
            ) == Some(with_table(names, tables, tablet)[t]),
{
    assert forall|t: u128| #[trigger]
        with_table(names, tables, tablet).contains_key(t) implies documents::name_of(
        tables,
        TabletId(t),
    ) == Some(with_table(names, tables, tablet)[t]) by {
        if t == tablet.0 {
            assert(TabletId(t) == tablet);
        }
        assert(names.contains_key(t) || t == tablet.0);
    }
}

proof fn lemma_indexed_is_right(
    names: Map<u128, Seq<char>>,
    tables: Seq<TableInfo>,
    d: Option<Arc<Document>>,
)
    requires
        forall|t: u128| #[trigger]
            names.contains_key(t) ==> documents::name_of(tables, TabletId(t)) == Some(names[t]),
    ensures
        forall|t: u128| #[trigger]
            with_indexed(names, tables, d).contains_key(t) ==> documents::name_of(
                tables,
                TabletId(t),
            ) == Some(with_indexed(names, tables, d)[t]),
{
    assert forall|tablet: TabletId| with_indexed(names, tables, d) == with_table(
        names,
        tables,
        tablet,
    ) implies forall|t: u128| #[trigger]
        with_table(names, tables, tablet).contains_key(t) ==> documents::name_of(
            tables,
            TabletId(t),
        ) == Some(with_table(names, tables, tablet)[t]) by {
        lemma_table_is_right(names, tables, tablet);
    }
}

proof fn lemma_names_are_right(updates: Seq<DocumentUpdate>, tables: Seq<TableInfo>)
    ensures
        forall|t: u128| #[trigger]
            names_in(updates, tables).contains_key(t) ==> documents::name_of(tables, TabletId(t))
                == Some(names_in(updates, tables)[t]),
    decreases updates.len(),
{
    if updates.len() > 0 {
        let u = updates.last();
        let names = names_in(updates.drop_last(), tables);
        lemma_names_are_right(updates.drop_last(), tables);
        lemma_table_is_right(names, tables, u.id.tablet);
        let named = with_table(names, tables, u.id.tablet);
        lemma_indexed_is_right(named, tables, u.old_document);
        lemma_indexed_is_right(
            with_indexed(named, tables, u.old_document),
            tables,
            u.new_document,
        );
    }
}

/// A delta calls every table by the name that it has here.
pub proof fn deltas_use_the_right_names(updates: Seq<DocumentUpdate>, tables: Seq<TableInfo>, tablet: TabletId)
    requires
        names_in(updates, tables).contains_key(tablet.0),
    ensures
        documents::name_of(tables, tablet) == Some(names_in(updates, tables)[tablet.0]),
{
    lemma_names_are_right(updates, tables);
}

/// A delta that changes the description of an index, before or after, names the
/// table of the index, so that others find it.
pub proof fn deltas_name_the_tables_of_their_indexes(
    updates: Seq<DocumentUpdate>,
    tables: Seq<TableInfo>,
    i: int,
    row: Document,
    m: documents::IndexMetadata,
)
    requires
        0 <= i < updates.len(),
        documents::name_of(tables, updates[i].id.tablet) == Some("_index"@),
        (updates[i].new_document matches Some(d) && *d == row) || (
        updates[i].old_document matches Some(d) && *d == row),
        row.content == documents::Content::Index(m),
        documents::name_of(tables, m.table) is Some,
    ensures
        names_in(updates, tables).contains_key(m.table.0),
    decreases updates.len(),
{
    let front = updates.drop_last();
    lemma_names_are_right(front, tables);
    if i < updates.len() - 1 {
        assert(front[i] == updates[i]);
        deltas_name_the_tables_of_their_indexes(front, tables, i, row, m);
        lemma_names_grow(names_in(front, tables), tables, updates.last());
    } else {
        let names = names_in(front, tables);
        let named = with_table(names, tables, updates[i].id.tablet);
        assert(named[updates[i].id.tablet.0] == "_index"@);
    }
}

/// A table is touched exactly where the delta names it.
pub proof fn touched_tables_are_those_named(d: Delta, table: Seq<char>)
    ensures
        d.touched().contains(table) <==> exists|t: u128| #[trigger]
            d.tables.contains_key(t) && d.tables[t] == table,
{
}

/// A delta is a heartbeat exactly where it has a source and changes nothing.
pub proof fn heartbeats_change_nothing(d: Delta)
    ensures
        d.heartbeat() <==> d.source_partition is Some && d.document_updates.len() == 0
            && d.document_writes.len() == 0 && d.index_writes.len() == 0,
{
}

/// A node's word of how far it has come says just that: the timestamp, the
/// partition, and nothing to apply.
pub proof fn heartbeats_say_how_far(ts: u64, partition: PartitionId)
    ensures
        heartbeat_of(ts, partition).ts == ts,
        heartbeat_of(ts, partition).source_partition == Some(partition),
        heartbeat_of(ts, partition).document_updates.len() == 0,
        heartbeat_of(ts, partition).document_writes.len() == 0,
        heartbeat_of(ts, partition).index_writes.len() == 0,
        heartbeat_of(ts, partition).write_bytes == 0,
{
}

/// What is said of a delta is what it holds.
pub proof fn deltas_say_what_they_hold(d: CommitDelta, t: u128)
    ensures
        d@.ts == d.ts,
        d@.document_updates == d.document_updates@,
        d@.document_writes == d.document_writes@,
        d@.index_writes == d.index_writes@,
        d@.source_partition == d.source_partition,
        d@.write_bytes == d.write_bytes,
        d@.write_source == d.write_source@,
        d@.tables.contains_key(t) <==> d.tables@.contains_key(t),
        d.tables@.contains_key(t) ==> d@.tables[t] == d.tables@[t]@,
{
}

} // verus!
