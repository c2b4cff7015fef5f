//! Replacing everything a node has by a checkpoint.
use super::{Committer, CommitterState, SnapshotId};
use crate::documents::{share, DocumentLogEntry, IndexEntry, StoredId};
use crate::partition::{PartitionId, PartitionMap};
use crate::text_map::TextMap;
use std::collections::BTreeMap;
use std::sync::Arc;
use vstd::prelude::*;

verus! {

broadcast use {vstd::std_specs::btree::group_btree_axioms, vstd::laws_cmp::group_laws_cmp};

/// `a` is stored before `b`.
pub open spec fn stored_before(a: StoredId, b: StoredId) -> bool {
    a.tablet.0 < b.tablet.0 || (a.tablet == b.tablet && a.internal < b.internal)
}

fn is_stored_before(a: StoredId, b: StoredId) -> (r: bool)
    ensures
        r == stored_before(a, b),
{
    a.tablet.0 < b.tablet.0 || (a.tablet == b.tablet && a.internal < b.internal)
}

/// The last entry for `id`.
pub open spec fn last_for(entries: Seq<DocumentLogEntry>, id: StoredId) -> Option<DocumentLogEntry>
    decreases entries.len(),
{
    if entries.len() == 0 {
        None
    } else if entries.last().id == id {
        Some(entries.last())
    } else {
        last_for(entries.drop_last(), id)
    }
}

/// Each entry is stored before the next.
pub open spec fn strictly_ordered(entries: Seq<DocumentLogEntry>) -> bool {
    forall|i: int, j: int|
        0 <= i < j < entries.len() ==> stored_before(
            (#[trigger] entries[i]).id,
            (#[trigger] entries[j]).id,
        )
}

/// `latest` holds the last entry of each document, in order.
pub open spec fn is_latest_of(latest: Seq<DocumentLogEntry>, entries: Seq<DocumentLogEntry>) -> bool {
    &&& strictly_ordered(latest)
    &&& forall|i: int|
        0 <= i < latest.len() ==> last_for(entries, (#[trigger] latest[i]).id) == Some(latest[i])
    &&& forall|id: StoredId|
        (#[trigger] last_for(entries, id)) matches Some(e) ==> latest.contains(e)
}

/// `compacted` holds the last entry of each document that is not deleted, in
/// order.
pub open spec fn is_compaction_of(compacted: Seq<DocumentLogEntry>, entries: Seq<DocumentLogEntry>) -> bool {
    &&& strictly_ordered(compacted)
    &&& forall|i: int|
        0 <= i < compacted.len() ==> last_for(entries, (#[trigger] compacted[i]).id) == Some(
            compacted[i],
        ) && compacted[i].value is Some
    &&& forall|id: StoredId|
        (#[trigger] last_for(entries, id)) matches Some(e) ==> e.value is Some ==> compacted.contains(
            e,
        )
}

proof fn lemma_last_for_id(entries: Seq<DocumentLogEntry>, id: StoredId)
    ensures
        last_for(entries, id) matches Some(e) ==> e.id == id,
    decreases entries.len(),
{
    if entries.len() > 0 {
        lemma_last_for_id(entries.drop_last(), id);
    }
}

/// Replaces or adds one entry.
fn put_latest(latest: &mut Vec<DocumentLogEntry>, e: DocumentLogEntry, seen: Ghost<Seq<DocumentLogEntry>>)
    requires
        is_latest_of(old(latest)@, seen@),
    ensures
        is_latest_of(final(latest)@, seen@.push(e)),
{
    let ghost before = latest@;
    let mut i: usize = 0;
    while i < latest.len() && is_stored_before(latest[i].id, e.id)
        invariant
            i <= latest@.len(),
            latest@ == before,
            forall|j: int| 0 <= j < i ==> stored_before((#[trigger] latest@[j]).id, e.id),
        decreases latest@.len() - i,
    {
        i += 1;
    }
    let ghost all = seen@.push(e);
    assert(all.drop_last() =~= seen@);
    assert forall|j: int| i < j < before.len() implies stored_before(
        e.id,
        (#[trigger] before[j]).id,
    ) by {
        assert(stored_before(before[i as int].id, before[j].id));
    }
    if i < latest.len() && latest[i].id == e.id {
        latest.set(i, e);
        proof {
            let after = latest@;
            assert forall|id: StoredId| (#[trigger] last_for(all, id)) is Some implies after.contains(
                last_for(all, id)->0,
            ) by {
                if id == e.id {
                    assert(after[i as int] == e);
                } else {
                    lemma_last_for_id(seen@, id);
                    let x = last_for(seen@, id)->0;
                    let k = choose|k: int| 0 <= k < before.len() && before[k] == x;
                    assert(k != i);
                    assert(after[k] == x);
                }
            }
            assert forall|k: int| 0 <= k < after.len() implies last_for(
                all,
                (#[trigger] after[k]).id,
            ) == Some(after[k]) by {
                if k != i {
                    assert(after[k] == before[k]);
                    if k < i {
                        assert(stored_before(before[k].id, before[i as int].id));
                    }
                }
            }
            assert forall|a: int, b: int| 0 <= a < b < after.len() implies stored_before(
                (#[trigger] after[a]).id,
                (#[trigger] after[b]).id,
            ) by {
                assert(after[a].id == before[a].id && after[b].id == before[b].id);
            }
        }
    } else {
        latest.insert(i, e);
        proof {
            let after = latest@;
            if i < before.len() {
                assert(!stored_before(before[i as int].id, e.id));
            }
            assert forall|k: int| i <= k < before.len() implies stored_before(
                e.id,
                (#[trigger] before[k]).id,
            ) by {
                if k > i {
                    assert(stored_before(before[i as int].id, before[k].id));
                }
            }
            assert forall|id: StoredId| (#[trigger] last_for(all, id)) is Some implies after.contains(
                last_for(all, id)->0,
            ) by {
                if id == e.id {
                    assert(after[i as int] == e);
                } else {
                    let x = last_for(seen@, id)->0;
                    let k = choose|k: int| 0 <= k < before.len() && before[k] == x;
                    if k < i {
                        assert(after[k] == x);
                    } else {
                        assert(after[k + 1] == x);
                    }
                }
            }
            assert forall|k: int| 0 <= k < after.len() implies last_for(
                all,
                (#[trigger] after[k]).id,
            ) == Some(after[k]) by {
                if k < i {
                    assert(after[k] == before[k]);
                } else if k > i {
                    assert(after[k] == before[k - 1]);
                }
            }
            assert forall|a: int, b: int| 0 <= a < b < after.len() implies stored_before(
                (#[trigger] after[a]).id,
                (#[trigger] after[b]).id,
            ) by {
                if a < i && b < i {
                    assert(after[a] == before[a] && after[b] == before[b]);
                } else if a < i && b == i {
                    assert(after[a] == before[a]);
                } else if a < i {
                    assert(after[a] == before[a] && after[b] == before[b - 1]);
                } else if a == i {
                    assert(after[b] == before[b - 1]);
                } else {
                    assert(after[a] == before[a - 1] && after[b] == before[b - 1]);
                }
            }
        }
    }
}

/// The documents of a checkpoint: of each its last entry, without those that are
/// deleted.
pub fn compact_checkpoint_documents(documents: &Vec<DocumentLogEntry>) -> (r: Vec<DocumentLogEntry>)
    ensures
        is_compaction_of(r@, documents@),
{
    let mut latest: Vec<DocumentLogEntry> = Vec::new();
    let mut i: usize = 0;
    while i < documents.len()
        invariant
            i <= documents@.len(),
            is_latest_of(latest@, documents@.take(i as int)),
        decreases documents@.len() - i,
    {
        let e = documents[i].copy();
        put_latest(&mut latest, e, Ghost(documents@.take(i as int)));
        assert(documents@.take(i as int).push(documents@[i as int]) =~= documents@.take(i + 1));
        i += 1;
    }
    assert(documents@.take(i as int) =~= documents@);
    let mut kept: Vec<DocumentLogEntry> = Vec::new();
    let mut j: usize = 0;
    while j < latest.len()
        invariant
            j <= latest@.len(),
            is_latest_of(latest@, documents@),
            strictly_ordered(kept@),
            forall|k: int|
                0 <= k < kept@.len() ==> (#[trigger] kept@[k]).value is Some && last_for(
                    documents@,
                    kept@[k].id,
                ) == Some(kept@[k]),
            j < latest@.len() ==> forall|k: int|
                0 <= k < kept@.len() ==> stored_before(
                    (#[trigger] kept@[k]).id,
                    latest@[j as int].id,
                ),
            forall|k: int|
                0 <= k < j && (#[trigger] latest@[k]).value is Some ==> kept@.contains(latest@[k]),
        decreases latest@.len() - j,
    {
        let ghost before = kept@;
        if latest[j].value.is_some() {
            kept.push(latest[j].copy());
            assert(kept@[before.len() as int] == latest@[j as int]);
        }
        assert forall|k: int| 0 <= k < j + 1 && (#[trigger] latest@[k]).value is Some implies kept@.contains(
            latest@[k],
        ) by {
            if k < j {
                let m = choose|m: int| 0 <= m < before.len() && before[m] == latest@[k];
                assert(kept@[m] == latest@[k]);
            }
        }
        if j + 1 < latest.len() {
            assert forall|k: int| 0 <= k < kept@.len() implies stored_before(
                (#[trigger] kept@[k]).id,
                latest@[j + 1].id,
            ) by {
                if k < before.len() {
                    assert(kept@[k] == before[k]);
                    assert(stored_before(latest@[j as int].id, latest@[j + 1].id));
                }
            }
        }
        j += 1;
    }
    assert forall|id: StoredId|
        (#[trigger] last_for(documents@, id)) is Some && (last_for(documents@, id)->0).value is Some implies kept@.contains(
        last_for(documents@, id)->0,
    ) by {
        let e = last_for(documents@, id)->0;
        let k = choose|k: int| 0 <= k < latest@.len() && latest@[k] == e;
        assert(latest@[k].value is Some);
    }
    kept
}

/// One key of a document in an index.
#[derive(Debug)]
pub struct DocumentKey {
    /// The index, where it is a database index that is ready for queries.
    pub index_id: Option<u128>,
    pub key: Arc<Vec<u8>>,
}

/// The entry that a key of a document makes.
pub open spec fn entry_for(e: DocumentLogEntry, k: DocumentKey) -> Option<IndexEntry> {
    match (e.value, k.index_id) {
        (Some(d), Some(index_id)) => Some(
            IndexEntry { ts: e.ts, index_id, key: k.key, value: Some(d.id.stored()) },
        ),
        _ => None,
    }
}

/// The entries that the keys of one document make.
pub open spec fn entries_for(e: DocumentLogEntry, keys: Seq<DocumentKey>) -> Seq<IndexEntry>
    decreases keys.len(),
{
    if keys.len() == 0 {
        Seq::empty()
    } else {
        let rest = entries_for(e, keys.drop_last());
        match entry_for(e, keys.last()) {
            Some(x) => rest.push(x),
            None => rest,
        }
    }
}

/// The entries that the keys of documents make.
pub open spec fn all_entries(documents: Seq<DocumentLogEntry>, keys: Seq<Vec<DocumentKey>>) -> Seq<IndexEntry>
    decreases documents.len(),
{
    if documents.len() == 0 {
        Seq::empty()
    } else {
        all_entries(documents.drop_last(), keys.take(documents.len() - 1)) + entries_for(
            documents.last(),
            keys[documents.len() - 1]@,
        )
    }
}

/// `a` is not behind `b`, byte by byte.
pub open spec fn bytes_le(a: Seq<u8>, b: Seq<u8>) -> bool
    decreases a.len(),
{
    if a.len() == 0 {
        true
    } else if b.len() == 0 {
        false
    } else if a[0] != b[0] {
        a[0] < b[0]
    } else {
        bytes_le(a.skip(1), b.skip(1))
    }
}

/// An absent document comes before all others.
pub open spec fn value_le(a: Option<StoredId>, b: Option<StoredId>) -> bool {
    match (a, b) {
        (None, _) => true,
        (Some(_), None) => false,
        (Some(x), Some(y)) => x == y || stored_before(x, y),
    }
}

/// `a` is not behind `b`: by timestamp, index, key and document.
pub open spec fn entry_le(a: IndexEntry, b: IndexEntry) -> bool {
    if a.ts != b.ts {
        a.ts < b.ts
    } else if a.index_id != b.index_id {
        a.index_id < b.index_id
    } else if a.key@ != b.key@ {
        bytes_le(a.key@, b.key@)
    } else {
        value_le(a.value, b.value)
    }
}

proof fn lemma_bytes_total(a: Seq<u8>, b: Seq<u8>)
    ensures
        bytes_le(a, b) || bytes_le(b, a),
        a.len() > 0 && a == b ==> bytes_le(a, b),
    decreases a.len(),
{
    if a.len() > 0 && b.len() > 0 && a[0] == b[0] {
        lemma_bytes_total(a.skip(1), b.skip(1));
    }
    if a == b && a.len() > 0 {
        lemma_bytes_total(a.skip(1), b.skip(1));
        lemma_bytes_reflexive(a);
    }
}

proof fn lemma_bytes_reflexive(a: Seq<u8>)
    ensures
        bytes_le(a, a),
    decreases a.len(),
{
    if a.len() > 0 {
        lemma_bytes_reflexive(a.skip(1));
    }
}

proof fn lemma_bytes_transitive(a: Seq<u8>, b: Seq<u8>, c: Seq<u8>)
    requires
        bytes_le(a, b),
        bytes_le(b, c),
    ensures
        bytes_le(a, c),
    decreases a.len(),
{
    if a.len() > 0 && b.len() > 0 && c.len() > 0 && a[0] == b[0] && b[0] == c[0] {
        lemma_bytes_transitive(a.skip(1), b.skip(1), c.skip(1));
    }
}

proof fn lemma_bytes_antisymmetric(a: Seq<u8>, b: Seq<u8>)
    requires
        bytes_le(a, b),
        bytes_le(b, a),
    ensures
        a == b,
    decreases a.len(),
{
    if a.len() == 0 {
        assert(a =~= b);
    } else if b.len() > 0 && a[0] == b[0] {
        lemma_bytes_antisymmetric(a.skip(1), b.skip(1));
        assert(a =~= seq![a[0]] + a.skip(1));
        assert(b =~= seq![b[0]] + b.skip(1));
    }
}

proof fn lemma_entry_total(a: IndexEntry, b: IndexEntry)
    ensures
        entry_le(a, b) || entry_le(b, a),
{
    lemma_bytes_total(a.key@, b.key@);
}

proof fn lemma_entry_transitive(a: IndexEntry, b: IndexEntry, c: IndexEntry)
    requires
        entry_le(a, b),
        entry_le(b, c),
    ensures
        entry_le(a, c),
{
    if a.ts == b.ts && b.ts == c.ts && a.index_id == b.index_id && b.index_id == c.index_id {
        if a.key@ != b.key@ && b.key@ != c.key@ {
            lemma_bytes_transitive(a.key@, b.key@, c.key@);
            if a.key@ == c.key@ {
                lemma_bytes_antisymmetric(a.key@, b.key@);
            }
        }
    }
}

fn is_bytes_le(a: &Vec<u8>, b: &Vec<u8>) -> (r: (bool, bool))
    ensures
        r.0 == (a@ == b@),
        r.1 == bytes_le(a@, b@),
{
    let mut i: usize = 0;
    assert(a@.skip(0) =~= a@);
    assert(b@.skip(0) =~= b@);
    while i < a.len() && i < b.len() && a[i] == b[i]
        invariant
            i <= a@.len(),
            i <= b@.len(),
            forall|k: int| 0 <= k < i ==> a@[k] == b@[k],
            bytes_le(a@, b@) == bytes_le(a@.skip(i as int), b@.skip(i as int)),
        decreases a@.len() - i,
    {
        assert(a@.skip(i as int).skip(1) =~= a@.skip(i + 1));
        assert(b@.skip(i as int).skip(1) =~= b@.skip(i + 1));
        i += 1;
    }
    if i == a.len() {
        let same: bool = a.len() == b.len();
        proof {
            if same {
                assert(a@ =~= b@);
            }
        }
        return (same, true);
    }
    if i == b.len() {
        return (false, false);
    }
    assert(a@[i as int] != b@[i as int]);
    (false, a[i] < b[i])
}

fn is_entry_le(a: &IndexEntry, b: &IndexEntry) -> (r: bool)
    ensures
        r == entry_le(*a, *b),
{
    if a.ts != b.ts {
        return a.ts < b.ts;
    }
    if a.index_id != b.index_id {
        return a.index_id < b.index_id;
    }
    let (same, le) = is_bytes_le(&a.key, &b.key);
    if !same {
        return le;
    }
    match (a.value, b.value) {
        (None, _) => true,
        (Some(_), None) => false,
        (Some(x), Some(y)) => x == y || is_stored_before(x, y),
    }
}

/// Each entry is not behind the next.
pub open spec fn entries_ordered(entries: Seq<IndexEntry>) -> bool {
    forall|i: int, j: int|
        0 <= i <= j < entries.len() ==> entry_le(#[trigger] entries[i], #[trigger] entries[j])
}

proof fn lemma_entry_reflexive(a: IndexEntry)
    ensures
        entry_le(a, a),
{
}

proof fn lemma_insert_multiset(q: Seq<IndexEntry>, i: int, e: IndexEntry)
    requires
        0 <= i <= q.len(),
    ensures
        q.insert(i, e).to_multiset() == q.to_multiset().insert(e),
{
    broadcast use vstd::seq_lib::group_to_multiset_ensures;

    let front = q.take(i);
    let back = q.skip(i);
    assert(q =~= front + back);
    assert(q.insert(i, e) =~= front.push(e) + back);
    vstd::seq_lib::lemma_multiset_commutative(front, back);
    vstd::seq_lib::lemma_multiset_commutative(front.push(e), back);
    assert(q.insert(i, e).to_multiset() =~= q.to_multiset().insert(e));
}

fn put_entry(sorted: &mut Vec<IndexEntry>, e: IndexEntry)
    requires
        entries_ordered(old(sorted)@),
    ensures
        entries_ordered(final(sorted)@),
        final(sorted)@.to_multiset() == old(sorted)@.to_multiset().insert(e),
{
    let ghost before = sorted@;
    let mut i: usize = sorted.len();
    while i > 0 && !is_entry_le(&sorted[i - 1], &e)
        invariant
            i <= sorted@.len(),
            sorted@ == before,
            forall|j: int| i <= j < sorted@.len() ==> !entry_le(#[trigger] sorted@[j], e),
        decreases i,
    {
        i -= 1;
    }
    sorted.insert(i, e);
    proof {
        let after = sorted@;
        lemma_insert_multiset(before, i as int, e);
        assert forall|a: int, b: int| 0 <= a <= b < after.len() implies entry_le(
            #[trigger] after[a],
            #[trigger] after[b],
        ) by {
            lemma_entry_reflexive(e);
            if a < i && b < i {
                assert(after[a] == before[a] && after[b] == before[b]);
            } else if a < i && b == i {
                assert(after[a] == before[a]);
                assert(entry_le(before[a], before[i - 1]));
                lemma_entry_transitive(before[a], before[i - 1], e);
            } else if a < i {
                assert(after[a] == before[a] && after[b] == before[b - 1]);
            } else if a == i && b > i {
                assert(after[b] == before[b - 1]);
                lemma_entry_total(e, before[b - 1]);
            } else if a > i {
                assert(after[a] == before[a - 1] && after[b] == before[b - 1]);
            }
        }
    }
}

/// The index entries of a checkpoint's documents, in order, given the keys that
/// each document has in the indexes.
pub fn checkpoint_index_entries(documents: &Vec<DocumentLogEntry>, keys: &Vec<Vec<DocumentKey>>) -> (r: Vec<
    IndexEntry,
>)
    requires
        keys@.len() == documents@.len(),
    ensures
        entries_ordered(r@),
        r@.to_multiset() == all_entries(documents@, keys@).to_multiset(),
{
    let mut sorted: Vec<IndexEntry> = Vec::new();
    let mut i: usize = 0;
    proof {
        assert(keys@.take(0) =~= Seq::<Vec<DocumentKey>>::empty());
        assert(sorted@ =~= Seq::<IndexEntry>::empty());
    }
    while i < documents.len()
        invariant
            i <= documents@.len(),
            keys@.len() == documents@.len(),
            entries_ordered(sorted@),
            sorted@.to_multiset() == all_entries(
                documents@.take(i as int),
                keys@.take(i as int),
            ).to_multiset(),
        decreases documents@.len() - i,
    {
        let ghost so_far = all_entries(documents@.take(i as int), keys@.take(i as int));
        let e = &documents[i];
        let mut j: usize = 0;
        proof {
            assert(so_far + entries_for(*e, keys@[i as int]@.take(0)) =~= so_far);
        }
        while j < keys[i as usize].len()
            invariant
                i < documents@.len(),
                keys@.len() == documents@.len(),
                j <= keys@[i as int]@.len(),
                *e == documents@[i as int],
                entries_ordered(sorted@),
                sorted@.to_multiset() == (so_far + entries_for(
                    *e,
                    keys@[i as int]@.take(j as int),
                )).to_multiset(),
            decreases keys@[i as int]@.len() - j,
        {
            let ghost done = entries_for(*e, keys@[i as int]@.take(j as int));
            assert(keys@[i as int]@.take(j + 1).drop_last() =~= keys@[i as int]@.take(j as int));
            let k = &keys[i][j];
            if let Some(d) = &e.value {
                if let Some(index_id) = k.index_id {
                    let entry = IndexEntry {
                        ts: e.ts,
                        index_id,
                        key: share(&k.key),
                        value: Some(d.id.stored_id()),
                    };
                    proof {
                        broadcast use vstd::seq_lib::group_to_multiset_ensures;

                        assert((so_far + done).push(entry) =~= so_far + done.push(entry));
                    }
                    put_entry(&mut sorted, entry);
                }
            }
            j += 1;
        }
        proof {
            assert(keys@[i as int]@.take(j as int) =~= keys@[i as int]@);
            assert(documents@.take(i + 1).drop_last() =~= documents@.take(i as int));
            assert(keys@.take(i + 1).take(i as int) =~= keys@.take(i as int));
        }
        i += 1;
    }
    assert(documents@.take(i as int) =~= documents@);
    assert(keys@.take(i as int) =~= keys@);
    sorted
}

/// What is known of the other partitions at first: nothing.
pub open spec fn unknown_frontiers(local: PartitionId, num_partitions: u32) -> Map<u32, u64> {
    Map::new(|p: u32| p < num_partitions && p != local.0, |p: u32| 0u64)
}

/// How far the other partitions can be read after a checkpoint has been
/// installed: as far as the checkpoint says, or not at all.
pub fn checkpoint_frontiers(recorded: Option<BTreeMap<u32, u64>>, partition_map: Option<&PartitionMap>) -> (r: BTreeMap<
    u32,
    u64,
>)
    ensures
        r@ == match recorded {
            Some(m) => m@,
            None => match partition_map {
                Some(p) => unknown_frontiers(p@.local, p@.num_partitions),
                None => Map::empty(),
            },
        },
{
    if let Some(m) = recorded {
        return m;
    }
    let mut r: BTreeMap<u32, u64> = BTreeMap::new();
    if let Some(p) = partition_map {
        let n: u32 = p.num_partitions();
        let local: PartitionId = p.local_partition();
        let mut i: u32 = 0;
        assert(r@ =~= unknown_frontiers(local, 0));
        while i < n
            invariant
                i <= n,
                r@ == unknown_frontiers(local, i),
            decreases n - i,
        {
            if i != local.0 {
                r.insert(i, 0);
            }
            i += 1;
            assert(r@ =~= unknown_frontiers(local, i));
        }
    } else {
        assert(r@ =~= Map::<u32, u64>::empty());
    }
    r
}

impl CommitterState {
    /// The state once a checkpoint has taken the place of everything else.
    pub open spec fn installed(
        self,
        ts: u64,
        snapshot: SnapshotId,
        frontiers: Map<u32, u64>,
        watermarks: Map<u32, u64>,
        data_watermarks: Map<u32, u64>,
    ) -> CommitterState {
        CommitterState {
            pending: Seq::empty(),
            prepared: Map::empty(),
            queued: Seq::empty(),
            log_max_ts: ts,
            latest_ts: ts,
            latest_snapshot: snapshot,
            last_assigned_ts: ts,
            frontiers,
            published_watermarks: watermarks,
            watermarks,
            data_watermarks,
            ..self
        }
    }
}

impl Committer {
    /// Takes a checkpoint that is in persistence in place of everything else.
    /// Nothing that was pending, prepared or queued survives.
    pub fn finish_install_snapshot(
        &mut self,
        snapshot_ts: u64,
        snapshot: SnapshotId,
        frontiers: BTreeMap<u32, u64>,
        watermarks: BTreeMap<u32, u64>,
        data_watermarks: BTreeMap<u32, u64>,
    )
        ensures
            final(self)@ == old(self)@.installed(
                snapshot_ts,
                snapshot,
                frontiers@,
                watermarks@,
                data_watermarks@,
            ),
            final(self)@.queue_in_order(),
            final(self)@.log_in_step(),
    {
        self.pending = Vec::new();
        self.prepared = TextMap::new();
        self.queued = Vec::new();
        self.log_max_ts = snapshot_ts;
        self.latest_ts = snapshot_ts;
        self.latest_snapshot = snapshot;
        self.last_assigned_ts = snapshot_ts;
        self.frontiers = frontiers;
        self.published_watermarks = super::copy_timestamps(&watermarks);
        self.watermarks = watermarks;
        self.data_watermarks = data_watermarks;
        assert(self@.pending =~= Seq::empty());
        assert(self@.queued =~= Seq::empty());
    }
}

/// A commit after a checkpoint was installed is after the checkpoint.
pub proof fn commits_follow_installed_checkpoints(
    state: CommitterState,
    ts: u64,
    snapshot: SnapshotId,
    frontiers: Map<u32, u64>,
    watermarks: Map<u32, u64>,
    data_watermarks: Map<u32, u64>,
    drawn: Result<u64, super::Refusal>,
)
    ensures
        state.installed(ts, snapshot, frontiers, watermarks, data_watermarks).commit_ts(
            drawn,
        ) matches Ok(next) ==> next > ts,
{
}

/// The last entry for a document is one of the entries, is for the document, and no
/// later one is; where there is none no entry is for the document.
pub proof fn last_entries_come_last(entries: Seq<DocumentLogEntry>, id: StoredId)
    ensures
        match last_for(entries, id) {
            Some(e) => e.id == id && exists|i: int|
                0 <= i < entries.len() && entries[i] == e && forall|j: int|
                    i < j < entries.len() ==> (#[trigger] entries[j]).id != id,
            None => forall|j: int| 0 <= j < entries.len() ==> (#[trigger] entries[j]).id != id,
        },
    decreases entries.len(),
{
    if entries.len() > 0 {
        let front = entries.drop_last();
        let n = entries.len() - 1;
        last_entries_come_last(front, id);
        assert(entries[n] == entries.last());
        if entries.last().id != id {
            match last_for(front, id) {
                Some(e) => {
                    let i = choose|i: int|
                        0 <= i < front.len() && front[i] == e && forall|j: int|
                            i < j < front.len() ==> (#[trigger] front[j]).id != id;
                    assert(entries[i] == e);
                    assert forall|j: int| i < j < entries.len() implies (
                    #[trigger] entries[j]).id != id by {
                        if j < n {
                            assert(front[j] == entries[j]);
                        }
                    }
                },
                None => {
                    assert forall|j: int| 0 <= j < entries.len() implies (
                    #[trigger] entries[j]).id != id by {
                        if j < n {
                            assert(front[j] == entries[j]);
                        }
                    }
                },
            }
        }
    }
}

/// A compacted checkpoint holds the newest revision of each document that is not
/// deleted, each once, by table and then by id; nothing else.
pub proof fn checkpoints_hold_the_newest_revisions(
    compacted: Seq<DocumentLogEntry>,
    entries: Seq<DocumentLogEntry>,
    i: int,
    a: int,
    b: int,
)
    requires
        is_compaction_of(compacted, entries),
        0 <= i < entries.len(),
        forall|j: int| i < j < entries.len() ==> (#[trigger] entries[j]).id != entries[i].id,
    ensures
        entries[i].value is Some ==> compacted.contains(entries[i]),
        entries[i].value is None ==> forall|k: int|
            0 <= k < compacted.len() ==> (#[trigger] compacted[k]).id != entries[i].id,
        forall|k: int| 0 <= k < compacted.len() ==> entries.contains(#[trigger] compacted[k]),
        0 <= a < b < compacted.len() ==> {
            let x = compacted[a].id;
            let y = compacted[b].id;
            x.tablet.0 < y.tablet.0 || (x.tablet.0 == y.tablet.0 && x.internal < y.internal)
        },
{
    let id = entries[i].id;
    last_entries_come_last(entries, id);
    match last_for(entries, id) {
        Some(e) => {
            let k = choose|k: int|
                0 <= k < entries.len() && entries[k] == e && forall|j: int|
                    k < j < entries.len() ==> (#[trigger] entries[j]).id != id;
            assert(entries[k].id == id);
            assert(k == i);
        },
        None => {},
    }
    assert forall|k: int| 0 <= k < compacted.len() implies entries.contains(
        #[trigger] compacted[k],
    ) by {
        last_entries_come_last(entries, compacted[k].id);
    }
}

/// A document of a checkpoint has an entry in an index where the index is known and
/// the document is not deleted: at the document's timestamp, under its key, for the
/// place where it is stored.
pub proof fn index_entries_point_at_their_documents(e: DocumentLogEntry, k: DocumentKey)
    ensures
        entry_for(e, k) is Some <==> e.value is Some && k.index_id is Some,
        entry_for(e, k) matches Some(x) ==> {
            &&& x.ts == e.ts
            &&& Some(x.index_id) == k.index_id
            &&& x.key == k.key
            &&& x.value == Some(
                StoredId { tablet: e.value->0.id.tablet, internal: e.value->0.id.internal },
            )
        },
{
}

proof fn lemma_entries_for(e: DocumentLogEntry, keys: Seq<DocumentKey>, i: int)
    requires
        0 <= i < keys.len(),
        entry_for(e, keys[i]) is Some,
    ensures
        entries_for(e, keys).contains(entry_for(e, keys[i])->0),
    decreases keys.len(),
{
    let front = keys.drop_last();
    let rest = entries_for(e, front);
    let all = entries_for(e, keys);
    if i < keys.len() - 1 {
        assert(front[i] == keys[i]);
        lemma_entries_for(e, front, i);
        let x = entry_for(e, keys[i])->0;
        let k = choose|k: int| 0 <= k < rest.len() && rest[k] == x;
        assert(all[k] == x);
    } else {
        assert(keys[i] == keys.last());
        assert(all[rest.len() as int] == entry_for(e, keys[i])->0);
    }
}

proof fn lemma_all_entries(
    documents: Seq<DocumentLogEntry>,
    keys: Seq<Vec<DocumentKey>>,
    d: int,
    x: IndexEntry,
)
    requires
        keys.len() == documents.len(),
        0 <= d < documents.len(),
        entries_for(documents[d], keys[d]@).contains(x),
    ensures
        all_entries(documents, keys).contains(x),
    decreases documents.len(),
{
    let n = documents.len() - 1;
    let before = all_entries(documents.drop_last(), keys.take(n));
    let last = entries_for(documents.last(), keys[n]@);
    let all = all_entries(documents, keys);
    if d < n {
        assert(documents.drop_last()[d] == documents[d]);
        assert(keys.take(n)[d] == keys[d]);
        lemma_all_entries(documents.drop_last(), keys.take(n), d, x);
        let k = choose|k: int| 0 <= k < before.len() && before[k] == x;
        assert(all[k] == x);
    } else {
        assert(documents[d] == documents.last());
        let k = choose|k: int| 0 <= k < last.len() && last[k] == x;
        assert(all[before.len() + k] == x);
    }
}

/// Every document of a checkpoint is found through every index that has a key for
/// it.
pub proof fn documents_are_found_through_their_indexes(
    documents: Seq<DocumentLogEntry>,
    keys: Seq<Vec<DocumentKey>>,
    d: int,
    i: int,
    x: IndexEntry,
)
    requires
        keys.len() == documents.len(),
        0 <= d < documents.len(),
        0 <= i < keys[d]@.len(),
        documents[d].value is Some,
        keys[d]@[i].index_id == Some(x.index_id),
        x.key == keys[d]@[i].key,
        x.ts == documents[d].ts,
        x.value == Some(
            StoredId {
                tablet: documents[d].value->0.id.tablet,
                internal: documents[d].value->0.id.internal,
            },
        ),
    ensures
        all_entries(documents, keys).contains(x),
{
    assert(entry_for(documents[d], keys[d]@[i]) == Some(x));
    lemma_entries_for(documents[d], keys[d]@, i);
    lemma_all_entries(documents, keys, d, x);
}

proof fn lemma_entries_come_from(e: DocumentLogEntry, keys: Seq<DocumentKey>, k: int) -> (i: int)
    requires
        0 <= k < entries_for(e, keys).len(),
    ensures
        0 <= i < keys.len(),
        entry_for(e, keys[i]) == Some(entries_for(e, keys)[k]),
    decreases keys.len(),
{
    let front = keys.drop_last();
    if k < entries_for(e, front).len() {
        lemma_entries_come_from(e, front, k)
    } else {
        keys.len() - 1
    }
}

/// No index of a checkpoint has an entry that no document has a key for.
pub proof fn index_entries_come_from_documents(
    documents: Seq<DocumentLogEntry>,
    keys: Seq<Vec<DocumentKey>>,
    k: int,
) -> (at: (int, int))
    requires
        keys.len() == documents.len(),
        0 <= k < all_entries(documents, keys).len(),
    ensures
        0 <= at.0 < documents.len(),
        0 <= at.1 < keys[at.0]@.len(),
        ({
            let x = all_entries(documents, keys)[k];
            let d = documents[at.0];
            &&& d.value is Some
            &&& keys[at.0]@[at.1].index_id == Some(x.index_id)
            &&& x.key == keys[at.0]@[at.1].key
            &&& x.ts == d.ts
            &&& x.value == Some(
                StoredId { tablet: d.value->0.id.tablet, internal: d.value->0.id.internal },
            )
        }),
    decreases documents.len(),
{
    let n = documents.len() - 1;
    let before = all_entries(documents.drop_last(), keys.take(n));
    if k < before.len() {
        let at = index_entries_come_from_documents(documents.drop_last(), keys.take(n), k);
        assert(keys.take(n)[at.0] == keys[at.0]);
        at
    } else {
        let i = lemma_entries_come_from(documents.last(), keys[n]@, k - before.len());
        (n, i)
    }
}

/// Keys are ordered by the first byte in which they differ, and a key comes before
/// what it begins.
pub proof fn keys_are_ordered_by_their_bytes(a: Seq<u8>, b: Seq<u8>, n: int)
    requires
        0 <= n <= a.len(),
        n <= b.len(),
        forall|i: int| 0 <= i < n ==> a[i] == b[i],
    ensures
        n == a.len() ==> bytes_le(a, b),
        n < a.len() && n < b.len() && a[n] < b[n] ==> bytes_le(a, b),
        n < a.len() && n < b.len() && a[n] > b[n] ==> !bytes_le(a, b),
        n < a.len() && n == b.len() ==> !bytes_le(a, b),
    decreases n,
{
    if n > 0 {
        assert forall|i: int| 0 <= i < n - 1 implies a.skip(1)[i] == b.skip(1)[i] by {
            assert(a[i + 1] == b[i + 1]);
        }
        keys_are_ordered_by_their_bytes(a.skip(1), b.skip(1), n - 1);
    }
}

/// The entries of a checkpoint are written by timestamp, then by index, then by key.
pub proof fn entries_are_written_in_order(entries: Seq<IndexEntry>, i: int, j: int)
    requires
        entries_ordered(entries),
        0 <= i < j < entries.len(),
    ensures
        entries[i].ts <= entries[j].ts,
        entries[i].ts == entries[j].ts ==> entries[i].index_id <= entries[j].index_id,
        entries[i].ts == entries[j].ts && entries[i].index_id == entries[j].index_id ==> bytes_le(
            entries[i].key@,
            entries[j].key@,
        ),
        entries[i].ts == entries[j].ts && entries[i].index_id == entries[j].index_id
            && entries[i].key@ == entries[j].key@ && entries[j].value is None
            ==> entries[i].value is None,
{
    assert(entry_le(entries[i], entries[j]));
    if entries[i].key@ == entries[j].key@ {
        keys_are_ordered_by_their_bytes(
            entries[i].key@,
            entries[j].key@,
            entries[i].key@.len() as int,
        );
    }
}

/// Where a checkpoint does not say how far the others had come, nothing is known of
/// any other partition.
pub proof fn unknown_partitions_have_not_come_far(local: PartitionId, num_partitions: u32, p: u32)
    ensures
        unknown_frontiers(local, num_partitions).contains_key(p) <==> p < num_partitions && p
            != local.0,
        unknown_frontiers(local, num_partitions).contains_key(p) ==> unknown_frontiers(
            local,
            num_partitions,
        )[p] == 0,
{
}

/// An installed checkpoint replaces what readers see, what is known of others and
/// everything that was under way, and no earlier timestamp is assigned again; who
/// the node is stays.
pub proof fn installing_replaces_everything(
    state: CommitterState,
    ts: u64,
    snapshot: SnapshotId,
    frontiers: Map<u32, u64>,
    watermarks: Map<u32, u64>,
    data_watermarks: Map<u32, u64>,
    id: Seq<char>,
)
    ensures
        ({
            let after = state.installed(ts, snapshot, frontiers, watermarks, data_watermarks);
            &&& after.latest_ts == ts && after.log_max_ts == ts && after.last_assigned_ts == ts
            &&& after.latest_snapshot == snapshot
            &&& after.frontiers == frontiers
            &&& after.watermarks == watermarks && after.published_watermarks == watermarks
            &&& after.data_watermarks == data_watermarks
            &&& after.pending.len() == 0 && after.queued.len() == 0
            &&& !after.prepared.contains_key(id)
            &&& after.placement == state.placement
            &&& after.raft == state.raft
            &&& after.has_oracle == state.has_oracle
        }),
{
}

} // verus!
