//! The order in which the writes of one transaction are applied.
//!
//! What is written depends on what is written with it:
//! - the `_tables` table is created before other tables,
//! - a table is created before its indexes,
//! - indexes are created before documents of their table,
//! - indexes are deleted before other indexes are created, and tables before
//!   other tables, in case they share a name,
//! - indexes of a table are deleted before the table itself.
use crate::documents;
use crate::documents::{Content, Document, DocumentWrite, Namespace, StoredId, TableInfo, TableMapping, TableState, INDEX_TABLE, TABLES_TABLE};
use crate::names::TabletId;
use crate::text;
use std::sync::Arc;
use vstd::prelude::*;
use vstd::string::*;

verus! {

/// Where the two tables that describe the others are stored.
#[derive(Clone, Copy, Debug, PartialEq, Eq, Structural)]
pub struct BootstrapTableIds {
    pub tables: TabletId,
    pub index: TabletId,
}

/// Where the mapping has the two tables that describe the others.
pub open spec fn bootstrap_ids(tables: Seq<TableInfo>) -> Option<BootstrapTableIds> {
    match (
        documents::called_in(tables, Namespace::Global, TABLES_TABLE@),
        documents::called_in(tables, Namespace::Global, INDEX_TABLE@),
    ) {
        (Some(t), Some(i)) => Some(BootstrapTableIds { tables: t.tablet, index: i.tablet }),
        _ => None,
    }
}

impl BootstrapTableIds {
    /// Looks the two tables up.
    pub fn find(table_mapping: &TableMapping) -> (r: Option<Self>)
        ensures
            r == bootstrap_ids(table_mapping.tables@),
    {
        match (
            table_mapping.find_in(Namespace::Global, TABLES_TABLE),
            table_mapping.find_in(Namespace::Global, INDEX_TABLE),
        ) {
            (Some(t), Some(i)) => Some(BootstrapTableIds { tables: t.tablet, index: i.tablet }),
            _ => None,
        }
    }
}

/// The write can be told apart: a row of the `_tables` table describes a table.
pub open spec fn is_sound(ids: BootstrapTableIds, tablet: TabletId, update: Option<Arc<Document>>) -> bool {
    tablet == ids.tables ==> match update {
        Some(d) => d.content is Table,
        None => true,
    }
}

/// All writes can be told apart.
pub open spec fn all_sound(ids: BootstrapTableIds, writes: Seq<DocumentWrite>) -> bool {
    forall|i: int|
        0 <= i < writes.len() ==> is_sound(
            ids,
            (#[trigger] writes[i]).id.tablet,
            writes[i].new_document,
        )
}

/// How early a write comes.
pub open spec fn rank(ids: BootstrapTableIds, tablet: TabletId, update: Option<Arc<Document>>) -> usize {
    if tablet == ids.tables {
        match update {
            Some(d) => match d.content {
                Content::Table(m) => match m.state {
                    TableState::Active => if m.name@ == TABLES_TABLE@ {
                        2
                    } else {
                        3
                    },
                    TableState::Hidden => 3,
                    TableState::Deleting => 1,
                },
                _ => 3,
            },
            None => 1,
        }
    } else if tablet == ids.index {
        if update is None {
            0
        } else {
            4
        }
    } else {
        5
    }
}

/// By what a write is ordered: how early it comes, then where it is stored.
pub fn table_dependency_sort_key(
    bootstrap_tables: BootstrapTableIds,
    id: StoredId,
    update: &Option<Arc<Document>>,
) -> (r: (usize, StoredId))
    requires
        is_sound(bootstrap_tables, id.tablet, *update),
    ensures
        r == (rank(bootstrap_tables, id.tablet, *update), id),
{
    let key: usize = if id.tablet == bootstrap_tables.tables {
        match update {
            Some(d) => match &d.content {
                Content::Table(m) => match m.state {
                    TableState::Active => {
                        if text::same(m.name.as_str(), TABLES_TABLE) {
                            2
                        } else {
                            3
                        }
                    },
                    TableState::Hidden => 3,
                    TableState::Deleting => 1,
                },
                _ => 3,
            },
            None => 1,
        }
    } else if id.tablet == bootstrap_tables.index {
        if update.is_none() {
            0
        } else {
            4
        }
    } else {
        5
    };
    (key, id)
}

/// `a` comes no later than `b`.
pub open spec fn key_le(a: (usize, StoredId), b: (usize, StoredId)) -> bool {
    a.0 < b.0 || (a.0 == b.0 && (a.1.tablet.0 < b.1.tablet.0 || (a.1.tablet == b.1.tablet
        && a.1.internal <= b.1.internal)))
}

/// The key of a write.
pub open spec fn key_of(ids: BootstrapTableIds, w: DocumentWrite) -> (usize, StoredId) {
    (rank(ids, w.id.tablet, w.new_document), w.id.stored())
}

fn is_key_le(a: (usize, StoredId), b: (usize, StoredId)) -> (r: bool)
    ensures
        r == key_le(a, b),
{
    a.0 < b.0 || (a.0 == b.0 && (a.1.tablet.0 < b.1.tablet.0 || (a.1.tablet == b.1.tablet
        && a.1.internal <= b.1.internal)))
}

/// `w` among writes that are in order, behind those it does not precede.
pub open spec fn placed(ids: BootstrapTableIds, writes: Seq<DocumentWrite>, w: DocumentWrite) -> Seq<DocumentWrite>
    decreases writes.len(),
{
    if writes.len() == 0 {
        seq![w]
    } else if key_le(key_of(ids, writes.last()), key_of(ids, w)) {
        writes.push(w)
    } else {
        placed(ids, writes.drop_last(), w).push(writes.last())
    }
}

/// The writes in the order in which they are applied. Writes with the same key
/// keep their order.
pub open spec fn in_order(ids: BootstrapTableIds, writes: Seq<DocumentWrite>) -> Seq<DocumentWrite>
    decreases writes.len(),
{
    if writes.len() == 0 {
        Seq::empty()
    } else {
        placed(ids, in_order(ids, writes.drop_last()), writes.last())
    }
}

proof fn lemma_placed_at(ids: BootstrapTableIds, writes: Seq<DocumentWrite>, w: DocumentWrite, i: int)
    requires
        0 <= i <= writes.len(),
        i > 0 ==> key_le(key_of(ids, writes[i - 1]), key_of(ids, w)),
        forall|j: int|
            i <= j < writes.len() ==> !key_le(
                key_of(ids, #[trigger] writes[j]),
                key_of(ids, w),
            ),
    ensures
        placed(ids, writes, w) == writes.insert(i, w),
    decreases writes.len(),
{
    if writes.len() == 0 {
        assert(writes.insert(i, w) =~= seq![w]);
    } else if i == writes.len() {
        assert(writes.insert(i, w) =~= writes.push(w));
    } else {
        assert(!key_le(key_of(ids, writes[writes.len() - 1]), key_of(ids, w)));
        lemma_placed_at(ids, writes.drop_last(), w, i);
        assert(writes.insert(i, w) =~= writes.drop_last().insert(i, w).push(writes.last()));
    }
}

/// Puts the writes of a transaction in the order in which they are applied.
pub fn order_writes(bootstrap_tables: BootstrapTableIds, writes: Vec<DocumentWrite>) -> (r: Vec<DocumentWrite>)
    requires
        all_sound(bootstrap_tables, writes@),
    ensures
        r@ == in_order(bootstrap_tables, writes@),
{
    let mut sorted: Vec<DocumentWrite> = Vec::new();
    let mut n: usize = 0;
    while n < writes.len()
        invariant
            n <= writes@.len(),
            all_sound(bootstrap_tables, writes@),
            sorted@ == in_order(bootstrap_tables, writes@.take(n as int)),
            sorted@.len() == n,
            all_sound(bootstrap_tables, sorted@),
        decreases writes@.len() - n,
    {
        let w = writes[n].copy();
        let key = table_dependency_sort_key(bootstrap_tables, w.id.stored_id(), &w.new_document);
        let mut i: usize = sorted.len();
        while i > 0 && !is_key_le(
            table_dependency_sort_key(
                bootstrap_tables,
                sorted[i - 1].id.stored_id(),
                &sorted[i - 1].new_document,
            ),
            key,
        )
            invariant
                0 <= i <= sorted@.len(),
                key == key_of(bootstrap_tables, w),
                all_sound(bootstrap_tables, sorted@),
                forall|j: int|
                    i <= j < sorted@.len() ==> !key_le(
                        key_of(bootstrap_tables, #[trigger] sorted@[j]),
                        key_of(bootstrap_tables, w),
                    ),
            decreases i,
        {
            i -= 1;
        }
        proof {
            lemma_placed_at(bootstrap_tables, sorted@, w, i as int);
            assert(writes@.take(n + 1).drop_last() =~= writes@.take(n as int));
        }
        let ghost before = sorted@;
        sorted.insert(i, w);
        assert forall|j: int| 0 <= j < sorted@.len() implies is_sound(
            bootstrap_tables,
            (#[trigger] sorted@[j]).id.tablet,
            sorted@[j].new_document,
        ) by {
            if j < i {
                assert(sorted@[j] == before[j]);
            } else if j > i {
                assert(sorted@[j] == before[j - 1]);
            }
        }
        n += 1;
    }
    assert(writes@.take(n as int) =~= writes@);
    sorted
}

/// The writes of a transaction are all there, and each comes no later than the
/// next.
pub open spec fn is_ordering_of(ids: BootstrapTableIds, sorted: Seq<DocumentWrite>, writes: Seq<DocumentWrite>) -> bool {
    &&& sorted.to_multiset() == writes.to_multiset()
    &&& forall|i: int, j: int|
        0 <= i <= j < sorted.len() ==> key_le(
            key_of(ids, #[trigger] sorted[i]),
            key_of(ids, #[trigger] sorted[j]),
        )
}

proof fn lemma_placed_in_order(ids: BootstrapTableIds, writes: Seq<DocumentWrite>, w: DocumentWrite)
    requires
        is_ordering_of(ids, writes, writes),
    ensures
        is_ordering_of(ids, placed(ids, writes, w), writes.push(w)),
        placed(ids, writes, w).len() == writes.len() + 1,
        forall|j: int|
            0 <= j < writes.len() + 1 ==> (#[trigger] placed(ids, writes, w)[j]) == w
                || writes.contains(placed(ids, writes, w)[j]),
    decreases writes.len(),
{
    broadcast use vstd::seq_lib::group_to_multiset_ensures;

    let p = placed(ids, writes, w);
    if writes.len() == 0 {
        assert(p =~= writes.push(w));
    } else if key_le(key_of(ids, writes.last()), key_of(ids, w)) {
        assert forall|i: int, j: int| 0 <= i <= j < p.len() implies key_le(
            key_of(ids, #[trigger] p[i]),
            key_of(ids, #[trigger] p[j]),
        ) by {
            if j == writes.len() && i < j {
                assert(key_le(key_of(ids, writes[i]), key_of(ids, writes[writes.len() - 1])));
            }
        }
    } else {
        let front = writes.drop_last();
        assert forall|i: int, j: int| 0 <= i <= j < front.len() implies key_le(
            key_of(ids, #[trigger] front[i]),
            key_of(ids, #[trigger] front[j]),
        ) by {
            assert(front[i] == writes[i] && front[j] == writes[j]);
        }
        lemma_placed_in_order(ids, front, w);
        let q = placed(ids, front, w);
        assert forall|j: int| 0 <= j < p.len() implies (#[trigger] p[j]) == w || writes.contains(
            p[j],
        ) by {
            if j < q.len() {
                if q[j] != w {
                    let k = choose|k: int| 0 <= k < front.len() && front[k] == q[j];
                    assert(writes[k] == p[j]);
                }
            } else {
                assert(writes[writes.len() - 1] == p[j]);
            }
        }
        assert forall|i: int, j: int| 0 <= i <= j < p.len() implies key_le(
            key_of(ids, #[trigger] p[i]),
            key_of(ids, #[trigger] p[j]),
        ) by {
            if j == q.len() && i < j {
                if q[i] != w {
                    let k = choose|k: int| 0 <= k < front.len() && front[k] == q[i];
                    assert(key_le(key_of(ids, writes[k]), key_of(ids, writes[writes.len() - 1])));
                }
            } else if j < q.len() {
                assert(key_le(key_of(ids, q[i]), key_of(ids, q[j])));
            }
        }
        assert(writes =~= front.push(writes.last()));
        assert(p.to_multiset() =~= writes.push(w).to_multiset()) by {
            assert(p.to_multiset() =~= front.to_multiset().insert(w).insert(writes.last()));
            assert(writes.push(w).to_multiset() =~= front.to_multiset().insert(
                writes.last(),
            ).insert(w));
        }
    }
}

/// Ordering the writes of a transaction loses and adds none, and puts each
/// behind what it depends on.
pub proof fn ordering_respects_dependencies(ids: BootstrapTableIds, writes: Seq<DocumentWrite>)
    ensures
        is_ordering_of(ids, in_order(ids, writes), writes),
    decreases writes.len(),
{
    broadcast use vstd::seq_lib::group_to_multiset_ensures;

    if writes.len() > 0 {
        let front = writes.drop_last();
        ordering_respects_dependencies(ids, front);
        let sorted = in_order(ids, front);
        lemma_placed_in_order(ids, sorted, writes.last());
        assert(writes =~= front.push(writes.last()));
        assert(in_order(ids, writes).to_multiset() =~= writes.to_multiset());
    } else {
        assert(in_order(ids, writes) =~= writes);
    }
}

/// Where a write comes among the others, by what it does: an index that goes first,
/// then a table that goes, then the `_tables` table itself, then other tables, then
/// indexes that come, then documents.
pub proof fn dependencies_come_first(ids: BootstrapTableIds, tablet: TabletId, update: Option<Arc<Document>>)
    requires
        ids.tables != ids.index,
    ensures
        tablet == ids.index && update is None ==> rank(ids, tablet, update) == 0,
        tablet == ids.tables && update is None ==> rank(ids, tablet, update) == 1,
        tablet == ids.tables ==> (update matches Some(d) ==> (d.content matches Content::Table(m) ==> {
            &&& m.state is Deleting ==> rank(ids, tablet, update) == 1
            &&& m.state is Active && m.name@ == "_tables"@ ==> rank(ids, tablet, update) == 2
            &&& m.state is Active && m.name@ != "_tables"@ ==> rank(ids, tablet, update) == 3
            &&& m.state is Hidden ==> rank(ids, tablet, update) == 3
        })),
        tablet == ids.index && update is Some ==> rank(ids, tablet, update) == 4,
        tablet != ids.tables && tablet != ids.index ==> rank(ids, tablet, update) == 5,
{
}

/// Writes are ordered by how early they come, then by table, then by document: the
/// order is total, and two writes tie only where all three agree.
pub proof fn keys_are_ordered(a: (usize, StoredId), b: (usize, StoredId), c: (usize, StoredId))
    ensures
        key_le(a, b) || key_le(b, a),
        key_le(a, b) && key_le(b, a) ==> a == b,
        key_le(a, b) && key_le(b, c) ==> key_le(a, c),
        a.0 < b.0 ==> !key_le(b, a),
        a.0 == b.0 && a.1.tablet.0 < b.1.tablet.0 ==> !key_le(b, a),
        a.0 == b.0 && a.1.tablet == b.1.tablet && a.1.internal < b.1.internal ==> !key_le(b, a),
{
}

/// A write is ordered by what it does and where it is stored.
pub proof fn writes_are_ordered_by_what_they_do(ids: BootstrapTableIds, w: DocumentWrite)
    ensures
        key_of(ids, w).0 == rank(ids, w.id.tablet, w.new_document),
        key_of(ids, w).1.tablet == w.id.tablet,
        key_of(ids, w).1.internal == w.id.internal,
{
}

/// The tables that describe the others are found by their names, in the global
/// namespace, and only where both are there.
pub proof fn bootstrap_tables_are_found_by_name(tables: Seq<TableInfo>)
    ensures
        match bootstrap_ids(tables) {
            Some(ids) => {
                &&& documents::called_in(tables, Namespace::Global, "_tables"@) matches Some(t)
                    && t.tablet == ids.tables
                &&& documents::called_in(tables, Namespace::Global, "_index"@) matches Some(t)
                    && t.tablet == ids.index
            },
            None => documents::called_in(tables, Namespace::Global, "_tables"@) is None
                || documents::called_in(tables, Namespace::Global, "_index"@) is None,
        },
{
}

} // verus!
