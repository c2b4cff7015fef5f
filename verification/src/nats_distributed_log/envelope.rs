//! How a commit travels between nodes.
use crate::committer::delta;
use crate::committer::delta::{CommitDelta, Delta};
use crate::committer::MAX_TIMESTAMP;
use crate::documents::DocumentUpdate;
use crate::hexadecimal;
use crate::names;
use crate::names::{TableName, TabletId, WriteSource};
use crate::ordered;
use crate::partition::PartitionId;
use std::collections::BTreeMap;
use std::sync::Arc;
use vstd::prelude::*;
use vstd::string::*;

verus! {

broadcast use {vstd::std_specs::btree::group_btree_axioms, vstd::laws_cmp::group_laws_cmp};

/// A commit as it is serialized for transport over the distributed log and over
/// Raft. The updates are encoded.
#[derive(Debug)]
pub struct DeltaEnvelope {
    pub ts: u64,
    pub write_source: Option<String>,
    pub write_bytes: u64,
    pub document_updates_proto: Vec<Vec<u8>>,
    /// The publisher's tablets, in hexadecimal notation, with their tables'
    /// names, so that a receiver can find its own tablets.
    pub tablet_mapping: Vec<(String, String)>,
    /// The node that published the delta. It skips its own.
    pub source_node: String,
    /// The Raft node that proposed the delta, where it travels over Raft.
    pub source_raft_node_id: Option<u64>,
    /// The partition that the delta comes from.
    pub source_partition: Option<u32>,
}

/// What an envelope says.
#[verifier::ext_equal]
pub struct Envelope {
    pub ts: u64,
    pub write_source: Option<Seq<char>>,
    pub write_bytes: u64,
    pub updates: Seq<Seq<u8>>,
    pub tables: Seq<(Seq<char>, Seq<char>)>,
    pub source_node: Seq<char>,
    pub source_raft_node_id: Option<u64>,
    pub source_partition: Option<u32>,
}

/// The texts of a table list.
pub open spec fn pairs_of(q: Seq<(String, String)>) -> Seq<(Seq<char>, Seq<char>)> {
    q.map_values(|e: (String, String)| (e.0@, e.1@))
}

/// The bytes of encoded updates.
pub open spec fn bytes_each(q: Seq<Vec<u8>>) -> Seq<Seq<u8>> {
    q.map_values(|v: Vec<u8>| v@)
}

impl View for DeltaEnvelope {
    type V = Envelope;

    open spec fn view(&self) -> Envelope {
        Envelope {
            ts: self.ts,
            write_source: match self.write_source {
                Some(s) => Some(s@),
                None => None,
            },
            write_bytes: self.write_bytes,
            updates: bytes_each(self.document_updates_proto@),
            tables: pairs_of(self.tablet_mapping@),
            source_node: self.source_node@,
            source_raft_node_id: self.source_raft_node_id,
            source_partition: self.source_partition,
        }
    }
}

/// A tablet in hexadecimal notation.
pub open spec fn tablet_hex(tablet: u128) -> Seq<char> {
    hexadecimal::hex_of(names::bytes_of(tablet as nat, 16))
}

/// A list of tables, in the order of `tablets`.
pub open spec fn listed(tablets: Seq<u128>, tables: Map<u128, Seq<char>>) -> Seq<(Seq<char>, Seq<char>)> {
    Seq::new(tablets.len(), |i: int| (tablet_hex(tablets[i]), tables[tablets[i]]))
}

/// A commit in an envelope, given its encoded updates.
pub open spec fn sealed(
    delta: Delta,
    source_node: Seq<char>,
    source_raft_node_id: Option<u64>,
    updates: Seq<Seq<u8>>,
) -> Envelope {
    Envelope {
        ts: delta.ts,
        write_source: delta.write_source,
        write_bytes: delta.write_bytes,
        updates,
        tables: listed(ordered::ascending_u128(delta.tables.dom()), delta.tables),
        source_node,
        source_raft_node_id,
        source_partition: match delta.source_partition {
            Some(p) => Some(p.0),
            None => None,
        },
    }
}

/// What one entry of a table list says; nothing, if it is not well formed.
pub open spec fn entry_in(e: (Seq<char>, Seq<char>)) -> Option<(u128, Seq<char>)> {
    if hexadecimal::is_hex(e.0) && e.0.len() == 32 && names::is_table_name(e.1) {
        Some((names::big_endian(hexadecimal::bytes_in(e.0)) as u128, e.1))
    } else {
        None
    }
}

/// The tables of a list, a later entry in place of an earlier one; what is not
/// well formed is passed over.
pub open spec fn tables_in(q: Seq<(Seq<char>, Seq<char>)>) -> Map<u128, Seq<char>>
    decreases q.len(),
{
    if q.len() == 0 {
        Map::empty()
    } else {
        let m = tables_in(q.drop_last());
        match entry_in(q.last()) {
            Some((tablet, name)) => m.insert(tablet, name),
            None => m,
        }
    }
}

/// The commit in an envelope, given its decoded updates.
pub open spec fn opened(e: Envelope, updates: Seq<DocumentUpdate>) -> Delta {
    Delta {
        ts: e.ts,
        document_writes: Seq::empty(),
        document_updates: updates,
        index_writes: Seq::empty(),
        write_source: e.write_source,
        write_bytes: e.write_bytes,
        tables: tables_in(e.tables),
        source_partition: match e.source_partition {
            Some(p) => Some(PartitionId(p)),
            None => None,
        },
    }
}

/// Why an envelope could not be opened.
#[derive(Debug)]
pub enum EnvelopeError {
    /// An update could not be decoded.
    Updates(String),
    /// The number is no timestamp.
    Timestamp(u64),
}

/// The hexadecimal notation of a tablet.
fn hex_of_tablet(tablet: u128) -> (r: String)
    ensures
        r@ == tablet_hex(tablet),
{
    let bytes: Vec<u8> = TabletId(tablet).to_bytes();
    hexadecimal::encode(&bytes)
}

/// What one entry of a table list says; nothing, if it is not well formed.
fn read_entry(id_hex: &str, name: &str) -> (r: Option<(u128, TableName)>)
    ensures
        match r {
            Some((tablet, table)) => entry_in((id_hex@, name@)) == Some((tablet, table@)),
            None => entry_in((id_hex@, name@)) is None,
        },
{
    let bytes = match hexadecimal::decode(id_hex) {
        Some(bytes) => bytes,
        None => {
            return None;
        },
    };
    match TabletId::from_bytes(&bytes) {
        Some(tablet) => match TableName::parse(name) {
            Some(table) => Some((tablet.0, table)),
            None => None,
        },
        None => None,
    }
}

impl DeltaEnvelope {
    /// Puts a commit into an envelope, given its encoded updates or why they
    /// could not be encoded.
    pub fn from_delta(
        delta: &CommitDelta,
        source_node: &str,
        source_raft_node_id: Option<u64>,
        encoded: Result<Vec<Vec<u8>>, String>,
    ) -> (r: Result<Self, String>)
        ensures
            match encoded {
                Ok(updates) => r matches Ok(e) && e@ == sealed(
                    delta@,
                    source_node@,
                    source_raft_node_id,
                    bytes_each(updates@),
                ),
                Err(e) => r == Err::<Self, String>(e),
            },
    {
        let document_updates_proto = match encoded {
            Ok(updates) => updates,
            Err(e) => {
                return Err(e);
            },
        };
        let keys = ordered::keys_u128(&delta.tables);
        let ghost tables = delta::table_names(delta.tables@);
        let mut tablet_mapping: Vec<(String, String)> = Vec::new();
        let mut i: usize = 0;
        assert(delta.tables@.dom() =~= tables.dom());
        while i < keys.len()
            invariant
                i <= keys@.len(),
                tables == delta::table_names(delta.tables@),
                keys@.to_set() == delta.tables@.dom(),
                pairs_of(tablet_mapping@) == listed(keys@, tables).take(i as int),
            decreases keys@.len() - i,
        {
            assert(keys@.to_set().contains(keys@[i as int]));
            if let Some(name) = delta.tables.get(&keys[i]) {
                let ghost before = tablet_mapping@;
                let id_hex = hex_of_tablet(keys[i]);
                let ghost entry = (id_hex@, name@);
                tablet_mapping.push((id_hex, name.as_str().to_owned()));
                assert(entry == listed(keys@, tables)[i as int]);
                assert(pairs_of(tablet_mapping@) =~= pairs_of(before).push(entry));
                assert(listed(keys@, tables).take(i + 1) =~= listed(keys@, tables).take(
                    i as int,
                ).push(entry));
            }
            i += 1;
        }
        assert(listed(keys@, tables).take(i as int) =~= listed(keys@, tables));
        let write_source: Option<String> = match delta.write_source.as_str() {
            Some(s) => Some(s.to_owned()),
            None => None,
        };
        let r = DeltaEnvelope {
            ts: delta.ts,
            write_source,
            write_bytes: delta.write_bytes,
            document_updates_proto,
            tablet_mapping,
            source_node: source_node.to_owned(),
            source_raft_node_id,
            source_partition: match delta.source_partition {
                Some(p) => Some(p.0),
                None => None,
            },
        };
        Ok(r)
    }

    /// Takes the commit out of the envelope, given its decoded updates or why
    /// they could not be decoded.
    pub fn to_delta(self, decoded: Result<Vec<DocumentUpdate>, String>) -> (r: Result<
        CommitDelta,
        EnvelopeError,
    >)
        ensures
            match decoded {
                Err(e) => r == Err::<CommitDelta, EnvelopeError>(EnvelopeError::Updates(e)),
                Ok(updates) => if self.ts > MAX_TIMESTAMP {
                    r == Err::<CommitDelta, EnvelopeError>(EnvelopeError::Timestamp(self.ts))
                } else {
                    r matches Ok(d) && d@ == opened(self@, updates@)
                },
            },
    {
        let document_updates = match decoded {
            Ok(updates) => updates,
            Err(e) => {
                return Err(EnvelopeError::Updates(e));
            },
        };
        if self.ts > MAX_TIMESTAMP {
            return Err(EnvelopeError::Timestamp(self.ts));
        }
        let ghost list = self@.tables;
        let mut tables: BTreeMap<u128, Arc<TableName>> = BTreeMap::new();
        let mut i: usize = 0;
        assert(delta::table_names(tables@) =~= tables_in(list.take(0)));
        while i < self.tablet_mapping.len()
            invariant
                i <= self.tablet_mapping@.len(),
                list == pairs_of(self.tablet_mapping@),
                delta::table_names(tables@) == tables_in(list.take(i as int)),
            decreases self.tablet_mapping@.len() - i,
        {
            let entry = &self.tablet_mapping[i];
            proof {
                let longer = list.take(i + 1);
                assert(longer.drop_last() =~= list.take(i as int));
                assert(longer.last() == (entry.0@, entry.1@));
            }
            if let Some((tablet, table)) = read_entry(entry.0.as_str(), entry.1.as_str()) {
                let ghost before = tables@;
                let ghost name = table@;
                tables.insert(tablet, Arc::new(table));
                assert(delta::table_names(tables@) =~= delta::table_names(before).insert(
                    tablet,
                    name,
                ));
            }
            i += 1;
        }
        assert(list.take(i as int) =~= list);
        let write_source = match &self.write_source {
            Some(s) => WriteSource::new(s.as_str()),
            None => WriteSource::unknown(),
        };
        let r = CommitDelta {
            ts: self.ts,
            document_writes: Arc::new(Vec::new()),
            document_updates: Arc::new(document_updates),
            index_writes: Arc::new(Vec::new()),
            write_source: Arc::new(write_source),
            write_bytes: self.write_bytes,
            tables,
            source_partition: match self.source_partition {
                Some(p) => Some(PartitionId(p)),
                None => None,
            },
        };
        assert(r@ =~= opened(self@, r.document_updates@));
        Ok(r)
    }

    /// The Raft node that proposed the delta.
    pub fn source_raft_node_id(&self) -> (r: Option<u64>)
        ensures
            r == self@.source_raft_node_id,
    {
        self.source_raft_node_id
    }
}

/// Reading an entry of a table list gives back the table it was made for.
proof fn lemma_entry(tablet: u128, name: Seq<char>)
    requires
        names::is_table_name(name),
    ensures
        entry_in((tablet_hex(tablet), name)) == Some((tablet, name)),
{
    let bytes = names::bytes_of(tablet as nat, 16);
    hexadecimal::reading_undoes_writing(bytes);
    names::lemma_tablet_bytes(tablet);
}

proof fn lemma_listed(tablets: Seq<u128>, tables: Map<u128, Seq<char>>)
    requires
        forall|i: int| 0 <= i < tablets.len() ==> tables.contains_key(#[trigger] tablets[i]),
        forall|t: u128| tables.contains_key(t) ==> names::is_table_name(#[trigger] tables[t]),
    ensures
        forall|t: u128| #[trigger]
            tables_in(listed(tablets, tables)).contains_key(t) == tablets.contains(t),
        forall|t: u128|
            tablets.contains(t) ==> #[trigger] tables_in(listed(tablets, tables))[t] == tables[t],
    decreases tablets.len(),
{
    let q = listed(tablets, tables);
    if tablets.len() > 0 {
        let rest = tablets.drop_last();
        let last = tablets.last();
        assert(q.drop_last() =~= listed(rest, tables));
        assert(q.last() == (tablet_hex(last), tables[last]));
        assert forall|i: int| 0 <= i < rest.len() implies tables.contains_key(
            #[trigger] rest[i],
        ) by {
            assert(tables.contains_key(tablets[i]));
        }
        lemma_listed(rest, tables);
        assert(tables.contains_key(tablets[tablets.len() - 1]));
        lemma_entry(last, tables[last]);
        assert forall|t: u128| #[trigger] tablets.contains(t) == (rest.contains(t) || t == last) by {
            if rest.contains(t) {
                let j = choose|j: int| 0 <= j < rest.len() && rest[j] == t;
                assert(tablets[j] == t);
            }
            if tablets.contains(t) && t != last {
                let j = choose|j: int| 0 <= j < tablets.len() && tablets[j] == t;
                assert(rest[j] == t);
            }
            assert(tablets[tablets.len() - 1] == last);
        }
        let m = tables_in(listed(rest, tables));
        assert(tables_in(q) == m.insert(last, tables[last]));
        assert forall|t: u128| #[trigger] tables_in(q).contains_key(t) == tablets.contains(t) by {
            assert(m.contains_key(t) == rest.contains(t));
        }
        assert forall|t: u128| tablets.contains(t) implies #[trigger] tables_in(q)[t]
            == tables[t] by {
            if t != last {
                assert(rest.contains(t));
                assert(m[t] == tables[t]);
            }
        }
    }
}

/// A commit that is put into an envelope and taken out again is the same, but
/// for the log entries and index entries, which the receiver makes for itself.
pub proof fn opening_undoes_sealing(
    delta: Delta,
    source_node: Seq<char>,
    source_raft_node_id: Option<u64>,
    encoded: Seq<Seq<u8>>,
)
    requires
        delta.tables.dom().finite(),
        forall|t: u128|
            delta.tables.contains_key(t) ==> names::is_table_name(#[trigger] delta.tables[t]),
    ensures
        opened(sealed(delta, source_node, source_raft_node_id, encoded), delta.document_updates)
            == (Delta { document_writes: Seq::empty(), index_writes: Seq::empty(), ..delta }),
{
    let keys = ordered::ascending_u128(delta.tables.dom());
    ordered::lemma_ascending_u128(delta.tables.dom());
    assert forall|i: int| 0 <= i < keys.len() implies delta.tables.contains_key(
        #[trigger] keys[i],
    ) by {
        assert(keys.to_set().contains(keys[i]));
    }
    lemma_listed(keys, delta.tables);
    assert forall|t: u128| keys.contains(t) == delta.tables.contains_key(t) by {
        assert(keys.to_set().contains(t) == keys.contains(t));
    }
    assert(tables_in(listed(keys, delta.tables)) =~= delta.tables);
}

/// An envelope says what the delta says and who sends it, and lists each table once,
/// by its id in hexadecimal and its name.
pub proof fn envelopes_say_what_the_delta_says(
    delta: Delta,
    source_node: Seq<char>,
    source_raft_node_id: Option<u64>,
    updates: Seq<Seq<u8>>,
    tablet: u128,
)
    requires
        delta.tables.dom().finite(),
    ensures
        ({
            let e = sealed(delta, source_node, source_raft_node_id, updates);
            &&& e.ts == delta.ts
            &&& e.write_source == delta.write_source
            &&& e.write_bytes == delta.write_bytes
            &&& e.updates == updates
            &&& e.source_node == source_node
            &&& e.source_raft_node_id == source_raft_node_id
            &&& delta.source_partition matches Some(p) ==> e.source_partition == Some(p.0)
            &&& delta.source_partition is None ==> e.source_partition is None
            &&& delta.tables.contains_key(tablet) ==> exists|i: int|
                0 <= i < e.tables.len() && #[trigger] e.tables[i] == (
                    hexadecimal::hex_of(names::bytes_of(tablet as nat, 16)),
                    delta.tables[tablet],
                )
        }),
{
    let e = sealed(delta, source_node, source_raft_node_id, updates);
    let ids = ordered::ascending_u128(delta.tables.dom());
    ordered::lemma_ascending_u128(delta.tables.dom());
    if delta.tables.contains_key(tablet) {
        assert(ids.to_set().contains(tablet));
        let i = choose|i: int| 0 <= i < ids.len() && ids[i] == tablet;
        assert(e.tables[i] == (
            hexadecimal::hex_of(names::bytes_of(tablet as nat, 16)),
            delta.tables[tablet],
        ));
    }
}

/// A delta that is opened says what its envelope says, with the updates that were
/// read from it.
pub proof fn deltas_say_what_the_envelope_says(e: Envelope, updates: Seq<DocumentUpdate>)
    ensures
        opened(e, updates).ts == e.ts,
        opened(e, updates).document_updates == updates,
        opened(e, updates).write_source == e.write_source,
        opened(e, updates).write_bytes == e.write_bytes,
        opened(e, updates).document_writes.len() == 0,
        opened(e, updates).index_writes.len() == 0,
        e.source_partition matches Some(p) ==> opened(e, updates).source_partition == Some(
            PartitionId(p),
        ),
        e.source_partition is None ==> opened(e, updates).source_partition is None,
{
}

/// A listed table is read where its id is thirty-two hexadecimal digits and its name
/// is that of a table; the last entry for a table counts, and any other is passed
/// over.
pub proof fn listed_tables_are_read(
    q: Seq<(Seq<char>, Seq<char>)>,
    entry: (Seq<char>, Seq<char>),
    tablet: u128,
)
    ensures
        entry_in(entry) is Some <==> hexadecimal::is_hex(entry.0) && entry.0.len() == 32
            && names::is_table_name(entry.1),
        entry_in(entry) matches Some((t, name)) ==> name == entry.1 && tables_in(
            q.push(entry),
        ).contains_key(t) && tables_in(q.push(entry))[t] == entry.1,
        entry_in(entry) is None ==> tables_in(q.push(entry)) == tables_in(q),
        !(entry_in(entry) matches Some((t, _)) && t == tablet) ==> (tables_in(
            q.push(entry),
        ).contains_key(tablet) <==> tables_in(q).contains_key(tablet)) && (tables_in(
            q,
        ).contains_key(tablet) ==> tables_in(q.push(entry))[tablet] == tables_in(q)[tablet]),
        tables_in(Seq::empty()).dom() == Set::<u128>::empty(),
{
    assert(q.push(entry).drop_last() == q);
}

} // verus!
