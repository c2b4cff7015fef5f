//! Replicating the rows of the `_index` table.
//!
//! An index is known by its table, and nodes store the same table under
//! different names, so the rows are rewritten on the way in. An index that is
//! ready on the node it comes from is not ready here: it starts over.
use super::routing;
use super::{CommitError, Refusal};
use crate::documents::{Content, Document, DocumentUpdate, IndexMetadata, IndexState};
use crate::names::TabletId;
use crate::text;
use std::collections::BTreeMap;
use std::sync::Arc;
use vstd::prelude::*;
use vstd::string::*;

verus! {

broadcast use {vstd::std_specs::btree::group_btree_axioms, vstd::laws_cmp::group_laws_cmp};

/// The table that a row of the `_index` table is about.
pub open spec fn indexed_table(d: Document) -> Option<TabletId> {
    match d.content {
        Content::Index(m) => Some(m.table),
        _ => None,
    }
}

/// The table that a row of the `_index` table is about.
pub fn index_metadata_tablet_id(document: &Document) -> (r: Option<TabletId>)
    ensures
        r == indexed_table(*document),
{
    match &document.content {
        Content::Index(m) => Some(m.table),
        _ => None,
    }
}

/// `state` is that of an index whose build has just begun.
pub open spec fn is_fresh_build(state: IndexState, staged: bool) -> bool {
    match state {
        IndexState::Backfilling { staged: s, created_lower_bound, retention_started, progress } => s
            == staged && created_lower_bound == 0 && !retention_started && progress@.len() == 0,
        _ => false,
    }
}

/// `after` is the metadata an index starts over with. The indexes that every
/// table has, and indexes that are being built, stay as they are.
pub open spec fn is_downgrade(before: IndexMetadata, after: IndexMetadata) -> bool {
    if before.builtin() || before.state is Backfilling {
        after == before
    } else {
        &&& after.table == before.table
        &&& after.descriptor == before.descriptor
        &&& after.kind == before.kind
        &&& after.definition == before.definition
        &&& is_fresh_build(after.state, before.state.staged())
    }
}

/// Makes an index start over.
pub fn downgrade_replicated_index_metadata(metadata: IndexMetadata) -> (r: IndexMetadata)
    ensures
        is_downgrade(metadata, r),
{
    if metadata.is_by_id_or_creation_time() || metadata.is_backfilling() {
        return metadata;
    }
    let staged: bool = metadata.state.is_staged();
    IndexMetadata {
        table: metadata.table,
        descriptor: metadata.descriptor,
        kind: metadata.kind,
        definition: metadata.definition,
        state: IndexState::Backfilling {
            staged,
            created_lower_bound: 0,
            retention_started: false,
            progress: Arc::new(Vec::new()),
        },
    }
}

/// Said of a row of the `_index` table that describes no index.
pub open spec fn not_index_metadata() -> Refusal {
    super::refused("Document is not index metadata"@)
}

/// Said of an index of a table that this node does not have.
pub open spec fn unmapped_index(tablet: TabletId) -> Refusal {
    super::refused(
        "Cannot remap replicated _index metadata for source TabletId "@ + routing::tablet_text(
            tablet,
        ) + ": table is not mapped locally"@,
    )
}

/// The objection to rewriting a row of the `_index` table.
pub open spec fn remap_objection(d: Document, remap: Map<u128, u128>) -> Option<Refusal> {
    match d.content {
        Content::Index(m) => if remap.contains_key(m.table.0) {
            None
        } else {
            Some(unmapped_index(m.table))
        },
        _ => Some(not_index_metadata()),
    }
}

/// `after` is the row as this node has it: in its own `_index` table, about its
/// own table.
pub open spec fn is_remapped_index(
    before: Document,
    after: Document,
    local_index_tablet: TabletId,
    remap: Map<u128, u128>,
    downgrade: bool,
) -> bool {
    &&& before.content matches Content::Index(m)
    &&& after.content matches Content::Index(n)
    &&& after.id == before.id.moved_to(local_index_tablet)
    &&& after.creation_time == before.creation_time
    &&& after.size == before.size
    &&& {
        let moved = IndexMetadata { table: TabletId(remap[m.table.0]), ..m };
        if downgrade {
            is_downgrade(moved, n)
        } else {
            n == moved
        }
    }
}

/// Rewrites a row of the `_index` table for this node.
pub fn remap_index_metadata_document(
    document: &Document,
    local_index_tablet: TabletId,
    tablet_remap: &BTreeMap<u128, u128>,
    downgrade_query_ready_state: bool,
) -> (r: Result<Document, CommitError>)
    ensures
        match r {
            Ok(d) => remap_objection(*document, tablet_remap@) is None && is_remapped_index(
                *document,
                d,
                local_index_tablet,
                tablet_remap@,
                downgrade_query_ready_state,
            ),
            Err(e) => remap_objection(*document, tablet_remap@) == Some(e@),
        },
{
    let m = match &document.content {
        Content::Index(m) => m,
        _ => {
            return Err(CommitError::new("Document is not index metadata".to_owned()));
        },
    };
    let local: u128 = match tablet_remap.get(&m.table.0) {
        Some(t) => *t,
        None => {
            let mut s: String = String::new();
            s.append("Cannot remap replicated _index metadata for source TabletId ");
            text::push_hex32(&mut s, m.table.0);
            s.append(": table is not mapped locally");
            assert(s@ =~= unmapped_index(m.table).text);
            return Err(CommitError::new(s));
        },
    };
    let mut metadata = m.copy();
    metadata.table = TabletId(local);
    if downgrade_query_ready_state {
        metadata = downgrade_replicated_index_metadata(metadata);
    }
    Ok(
        Document {
            id: document.id.in_tablet(local_index_tablet),
            creation_time: document.creation_time,
            size: document.size,
            content: Content::Index(metadata),
        },
    )
}

/// [`remap_objection`] where there is a document.
pub open spec fn remap_objection_opt(d: Option<Arc<Document>>, remap: Map<u128, u128>) -> Option<Refusal> {
    match d {
        Some(d) => remap_objection(*d, remap),
        None => None,
    }
}

/// [`is_remapped_index`] where there is a document.
pub open spec fn is_remapped_opt(
    before: Option<Arc<Document>>,
    after: Option<Arc<Document>>,
    local_index_tablet: TabletId,
    remap: Map<u128, u128>,
    downgrade: bool,
) -> bool {
    match (before, after) {
        (Some(b), Some(a)) => is_remapped_index(*b, *a, local_index_tablet, remap, downgrade),
        (None, None) => true,
        _ => false,
    }
}

/// The objection to rewriting a change of the `_index` table.
pub open spec fn update_remap_objection(u: DocumentUpdate, remap: Map<u128, u128>) -> Option<Refusal> {
    if remap_objection_opt(u.old_document, remap) is Some {
        remap_objection_opt(u.old_document, remap)
    } else {
        remap_objection_opt(u.new_document, remap)
    }
}

/// `after` is the change as this node sees it.
pub open spec fn is_remapped_update(
    before: DocumentUpdate,
    after: DocumentUpdate,
    local_index_tablet: TabletId,
    remap: Map<u128, u128>,
    downgrade: bool,
) -> bool {
    &&& after.id == before.id.moved_to(local_index_tablet)
    &&& is_remapped_opt(before.old_document, after.old_document, local_index_tablet, remap, downgrade)
    &&& is_remapped_opt(before.new_document, after.new_document, local_index_tablet, remap, downgrade)
}

fn remap_opt(
    d: &Option<Arc<Document>>,
    local_index_tablet: TabletId,
    tablet_remap: &BTreeMap<u128, u128>,
    downgrade: bool,
) -> (r: Result<Option<Arc<Document>>, CommitError>)
    ensures
        match r {
            Ok(a) => remap_objection_opt(*d, tablet_remap@) is None && is_remapped_opt(
                *d,
                a,
                local_index_tablet,
                tablet_remap@,
                downgrade,
            ),
            Err(e) => remap_objection_opt(*d, tablet_remap@) == Some(e@),
        },
{
    match d {
        None => Ok(None),
        Some(d) => match remap_index_metadata_document(d, local_index_tablet, tablet_remap, downgrade) {
            Ok(n) => Ok(Some(Arc::new(n))),
            Err(e) => Err(e),
        },
    }
}

/// Rewrites a change of the `_index` table for this node.
pub fn remap_index_metadata_update(
    update: &DocumentUpdate,
    local_index_tablet: TabletId,
    tablet_remap: &BTreeMap<u128, u128>,
    downgrade_query_ready_state: bool,
) -> (r: Result<DocumentUpdate, CommitError>)
    ensures
        match r {
            Ok(u) => update_remap_objection(*update, tablet_remap@) is None && is_remapped_update(
                *update,
                u,
                local_index_tablet,
                tablet_remap@,
                downgrade_query_ready_state,
            ),
            Err(e) => update_remap_objection(*update, tablet_remap@) == Some(e@),
        },
{
    let old_document = match remap_opt(
        &update.old_document,
        local_index_tablet,
        tablet_remap,
        downgrade_query_ready_state,
    ) {
        Ok(d) => d,
        Err(e) => {
            return Err(e);
        },
    };
    let new_document = match remap_opt(
        &update.new_document,
        local_index_tablet,
        tablet_remap,
        downgrade_query_ready_state,
    ) {
        Ok(d) => d,
        Err(e) => {
            return Err(e);
        },
    };
    Ok(DocumentUpdate { id: update.id.in_tablet(local_index_tablet), old_document, new_document })
}

/// An index that a node has.
#[derive(Debug)]
pub struct IndexInfo {
    pub id: u128,
    pub metadata: IndexMetadata,
}

/// Two indexes have the same name.
pub open spec fn same_name(a: IndexMetadata, b: IndexMetadata) -> bool {
    a.table == b.table && a.descriptor@ == b.descriptor@
}

/// The first of a node's indexes that has the name of `wanted` and is ready, or
/// is not, as `wanted` is.
pub open spec fn existing_index(indexes: Seq<IndexInfo>, wanted: IndexMetadata) -> Option<IndexInfo>
    decreases indexes.len(),
{
    if indexes.len() == 0 {
        None
    } else if same_name(indexes[0].metadata, wanted) && (indexes[0].metadata.state is Enabled) == (
    wanted.state is Enabled) {
        Some(indexes[0])
    } else {
        existing_index(indexes.skip(1), wanted)
    }
}

/// Two indexes have been built equally far.
pub open spec fn same_state(a: IndexState, b: IndexState) -> bool {
    match (a, b) {
        (
            IndexState::Backfilling {
                staged: s1,
                created_lower_bound: c1,
                retention_started: r1,
                progress: p1,
            },
            IndexState::Backfilling {
                staged: s2,
                created_lower_bound: c2,
                retention_started: r2,
                progress: p2,
            },
        ) => s1 == s2 && c1 == c2 && r1 == r2 && p1@ == p2@,
        (
            IndexState::Backfilled { staged: s1, detail: d1 },
            IndexState::Backfilled { staged: s2, detail: d2 },
        ) => s1 == s2 && d1@ == d2@,
        (IndexState::Enabled { detail: d1 }, IndexState::Enabled { detail: d2 }) => d1@ == d2@,
        _ => false,
    }
}

/// Two indexes are the same but for their names.
pub open spec fn same_config(a: IndexMetadata, b: IndexMetadata) -> bool {
    a.kind == b.kind && a.definition@ == b.definition@ && same_state(a.state, b.state)
}

fn same_bytes(a: &Vec<u8>, b: &Vec<u8>) -> (r: bool)
    ensures
        r == (a@ == b@),
{
    if a.len() != b.len() {
        return false;
    }
    let mut i: usize = 0;
    while i < a.len()
        invariant
            i <= a@.len(),
            a@.len() == b@.len(),
            forall|k: int| 0 <= k < i ==> a@[k] == b@[k],
        decreases a@.len() - i,
    {
        if a[i] != b[i] {
            assert(a@[i as int] != b@[i as int]);
            return false;
        }
        i += 1;
    }
    assert(a@ =~= b@);
    true
}

fn is_same_state(a: &IndexState, b: &IndexState) -> (r: bool)
    ensures
        r == same_state(*a, *b),
{
    match (a, b) {
        (
            IndexState::Backfilling {
                staged: s1,
                created_lower_bound: c1,
                retention_started: r1,
                progress: p1,
            },
            IndexState::Backfilling {
                staged: s2,
                created_lower_bound: c2,
                retention_started: r2,
                progress: p2,
            },
        ) => *s1 == *s2 && *c1 == *c2 && *r1 == *r2 && same_bytes(p1, p2),
        (
            IndexState::Backfilled { staged: s1, detail: d1 },
            IndexState::Backfilled { staged: s2, detail: d2 },
        ) => *s1 == *s2 && same_bytes(d1, d2),
        (IndexState::Enabled { detail: d1 }, IndexState::Enabled { detail: d2 }) => same_bytes(d1, d2),
        _ => false,
    }
}

fn is_same_config(a: &IndexMetadata, b: &IndexMetadata) -> (r: bool)
    ensures
        r == same_config(*a, *b),
{
    a.kind == b.kind && same_bytes(&a.definition, &b.definition) && is_same_state(
        &a.state,
        &b.state,
    )
}

fn find_existing<'a>(indexes: &'a Vec<IndexInfo>, wanted: &IndexMetadata) -> (r: Option<&'a IndexInfo>)
    ensures
        match r {
            Some(i) => existing_index(indexes@, *wanted) == Some(*i),
            None => existing_index(indexes@, *wanted) is None,
        },
{
    let mut i: usize = 0;
    assert(indexes@.skip(0) =~= indexes@);
    while i < indexes.len()
        invariant
            i <= indexes@.len(),
            existing_index(indexes@, *wanted) == existing_index(indexes@.skip(i as int), *wanted),
        decreases indexes@.len() - i,
    {
        let m = &indexes[i].metadata;
        if m.table == wanted.table && text::same(m.descriptor.as_str(), wanted.descriptor.as_str())
            && m.is_enabled() == wanted.is_enabled() {
            return Some(&indexes[i]);
        }
        assert(indexes@.skip(i as int).skip(1) =~= indexes@.skip(i + 1));
        i += 1;
    }
    None
}

/// Said of an index that this node has under the same name with another
/// definition.
pub open spec fn different_config(m: IndexMetadata, id: u128, existing: u128) -> Refusal {
    super::refused(
        "Replicated _index metadata for "@ + routing::tablet_text(m.table) + "."@ + m.descriptor@
            + " has document id "@ + text::hex_padded(id as nat, 32) + " but local index id "@
            + text::hex_padded(existing as nat, 32) + " already exists with different config"@,
    )
}

/// The row that a change leaves, or, of a deletion, the row that it takes away.
pub open spec fn described(u: DocumentUpdate) -> Option<Document> {
    match u.new_document {
        Some(d) => Some(*d),
        None => match u.old_document {
            Some(d) => Some(*d),
            None => None,
        },
    }
}

/// Whether a node has the index that a change of the `_index` table is about,
/// under another id.
pub open spec fn already_present(indexes: Seq<IndexInfo>, u: DocumentUpdate) -> Result<bool, Refusal> {
    match described(u) {
        None => Ok(false),
        Some(d) => match d.content {
            Content::Index(m) => match existing_index(indexes, m) {
                None => Ok(false),
                Some(existing) => if existing.id == d.id.internal {
                    Ok(false)
                } else if same_config(existing.metadata, m) {
                    Ok(true)
                } else {
                    Err(different_config(m, d.id.internal, existing.id))
                },
            },
            _ => Err(not_index_metadata()),
        },
    }
}

/// Whether a node has the index that a change of the `_index` table is about,
/// under another id: each node may have created it on its own. It is an error if
/// the two are not the same.
pub fn replicated_index_update_is_already_present(indexes: &Vec<IndexInfo>, update: &DocumentUpdate) -> (r: Result<
    bool,
    CommitError,
>)
    ensures
        super::outcome(r) == already_present(indexes@, *update),
{
    let document: &Document = match &update.new_document {
        Some(d) => d,
        None => match &update.old_document {
            Some(d) => d,
            None => {
                return Ok(false);
            },
        },
    };
    let m = match &document.content {
        Content::Index(m) => m,
        _ => {
            return Err(CommitError::new("Document is not index metadata".to_owned()));
        },
    };
    let existing = match find_existing(indexes, m) {
        Some(e) => e,
        None => {
            return Ok(false);
        },
    };
    if existing.id == document.id.internal {
        return Ok(false);
    }
    if is_same_config(&existing.metadata, m) {
        return Ok(true);
    }
    let mut s: String = String::new();
    s.append("Replicated _index metadata for ");
    text::push_hex32(&mut s, m.table.0);
    s.append(".");
    s.append(m.descriptor.as_str());
    s.append(" has document id ");
    text::push_hex32(&mut s, document.id.internal);
    s.append(" but local index id ");
    text::push_hex32(&mut s, existing.id);
    s.append(" already exists with different config");
    assert(s@ =~= different_config(*m, document.id.internal, existing.id).text);
    Err(CommitError::new(s))
}

/// An index that starts over cannot answer queries, unless every table has it.
pub proof fn downgraded_indexes_are_not_ready(before: IndexMetadata, after: IndexMetadata)
    requires
        is_downgrade(before, after),
        !before.builtin(),
    ensures
        after.state is Backfilling,
        after.state.staged() == before.state.staged(),
        same_name(before, after),
{
}

/// A row of the `_index` table can be taken over exactly where it describes an index
/// of a table that this node has.
pub proof fn indexes_of_known_tables_are_taken_over(d: Document, remap: Map<u128, u128>)
    ensures
        remap_objection(d, remap) is None <==> (d.content matches Content::Index(m)
            && remap.contains_key(m.table.0)),
{
}

/// A row that is taken over describes the same index, of this node's own table, in
/// this node's own `_index` table; it is ready only where the original was and that
/// is asked for, or where every table has the index.
pub proof fn taken_over_indexes_are_the_same(
    before: Document,
    after: Document,
    tablet: TabletId,
    remap: Map<u128, u128>,
    downgrade: bool,
)
    requires
        is_remapped_index(before, after, tablet, remap, downgrade),
    ensures
        after.id.tablet == tablet,
        after.id.internal == before.id.internal,
        after.id.number == before.id.number,
        after.creation_time == before.creation_time,
        after.size == before.size,
        ({
            let m = before.content->Index_0;
            let n = after.content->Index_0;
            &&& before.content is Index
            &&& after.content is Index
            &&& n.table.0 == remap[m.table.0]
            &&& n.descriptor == m.descriptor
            &&& n.kind == m.kind
            &&& n.definition == m.definition
            &&& !downgrade ==> n.state == m.state
            &&& m.state is Backfilling ==> n.state == m.state
            &&& downgrade && m.descriptor@ != "by_id"@ && m.descriptor@ != "by_creation_time"@
                ==> n.state is Backfilling
            &&& downgrade && (m.descriptor@ == "by_id"@ || m.descriptor@ == "by_creation_time"@)
                ==> n.state == m.state
        }),
{
}

/// A change of the `_index` table that is taken over has a row where there was one,
/// the new from the new and the old from the old.
pub proof fn taken_over_changes_keep_both_rows(
    before: DocumentUpdate,
    after: DocumentUpdate,
    tablet: TabletId,
    remap: Map<u128, u128>,
    downgrade: bool,
)
    requires
        is_remapped_update(before, after, tablet, remap, downgrade),
    ensures
        after.id.tablet == tablet,
        after.id.internal == before.id.internal,
        after.id.number == before.id.number,
        after.new_document is Some <==> before.new_document is Some,
        after.old_document is Some <==> before.old_document is Some,
        before.new_document matches Some(b) ==> is_remapped_index(
            *b,
            *(after.new_document->0),
            tablet,
            remap,
            downgrade,
        ),
        before.old_document matches Some(b) ==> is_remapped_index(
            *b,
            *(after.old_document->0),
            tablet,
            remap,
            downgrade,
        ),
{
}

/// A change of the `_index` table can be taken over exactly where both its rows can.
pub proof fn changes_are_taken_over_with_both_rows(u: DocumentUpdate, remap: Map<u128, u128>)
    ensures
        update_remap_objection(u, remap) is None <==> {
            &&& u.old_document matches Some(d) ==> remap_objection(*d, remap) is None
            &&& u.new_document matches Some(d) ==> remap_objection(*d, remap) is None
        },
{
}

/// An index that is found is one of the node's, with the same table and descriptor,
/// ready where the wanted one is; where none is found there is none.
pub proof fn existing_indexes_have_the_same_name(indexes: Seq<IndexInfo>, wanted: IndexMetadata)
    ensures
        match existing_index(indexes, wanted) {
            Some(e) => {
                &&& indexes.contains(e)
                &&& e.metadata.table == wanted.table
                &&& e.metadata.descriptor@ == wanted.descriptor@
                &&& (e.metadata.state is Enabled <==> wanted.state is Enabled)
            },
            None => forall|i: int|
                0 <= i < indexes.len() ==> !((#[trigger] indexes[i]).metadata.table == wanted.table
                    && indexes[i].metadata.descriptor@ == wanted.descriptor@ && (
                indexes[i].metadata.state is Enabled <==> wanted.state is Enabled)),
        },
    decreases indexes.len(),
{
    if indexes.len() > 0 {
        let rest = indexes.skip(1);
        existing_indexes_have_the_same_name(rest, wanted);
        assert(indexes.contains(indexes[0]));
        if existing_index(rest, wanted) is Some {
            let e = existing_index(rest, wanted)->0;
            let k = choose|k: int| 0 <= k < rest.len() && rest[k] == e;
            assert(indexes[k + 1] == e);
        }
        if existing_index(indexes, wanted) is None {
            assert forall|i: int| 0 <= i < indexes.len() implies !((
            #[trigger] indexes[i]).metadata.table == wanted.table
                && indexes[i].metadata.descriptor@ == wanted.descriptor@ && (
            indexes[i].metadata.state is Enabled <==> wanted.state is Enabled)) by {
                if i > 0 {
                    assert(rest[i - 1] == indexes[i]);
                }
            }
        }
    }
}

/// Two indexes have the same configuration exactly where they are for the same
/// thing, are defined alike and have come equally far.
pub proof fn configurations_agree_in_everything(a: IndexMetadata, b: IndexMetadata)
    ensures
        same_config(a, b) ==> a.kind == b.kind && a.definition@ == b.definition@ && (
        a.state is Enabled <==> b.state is Enabled) && (a.state is Backfilling
            <==> b.state is Backfilling) && a.state.staged() == b.state.staged(),
        same_config(a, a),
        same_config(a, b) == same_config(b, a),
        a.kind == b.kind && a.definition@ == b.definition@ && a.state == b.state ==> same_config(
            a,
            b,
        ),
{
}

/// A change of the `_index` table is passed over exactly where the node has the
/// index under another id with the same configuration, is refused where the
/// configuration differs, and is applied otherwise.
pub proof fn indexes_are_not_created_twice(indexes: Seq<IndexInfo>, u: DocumentUpdate, row: Document, m: IndexMetadata)
    requires
        match u.new_document {
            Some(d) => row == *d,
            None => u.old_document matches Some(d) && row == *d,
        },
        row.content == Content::Index(m),
    ensures
        already_present(indexes, u) == Ok::<bool, Refusal>(true) <==> (existing_index(
            indexes,
            m,
        ) matches Some(e) && e.id != row.id.internal && same_config(e.metadata, m)),
        already_present(indexes, u) is Err <==> (existing_index(indexes, m) matches Some(e) && e.id
            != row.id.internal && !same_config(e.metadata, m)),
{
}

/// The table of an index is the one that its row names.
pub proof fn rows_name_the_table_of_their_index(d: Document)
    ensures
        d.content matches Content::Index(m) ==> indexed_table(d) == Some(m.table),
        !(d.content is Index) ==> indexed_table(d) is None,
{
}

/// An index that starts over is built from the beginning, for the same table, under
/// the same name and definition, staged where it was; those that every table has and
/// those being built stay as they are.
pub proof fn indexes_start_over_from_the_beginning(before: IndexMetadata, after: IndexMetadata)
    requires
        is_downgrade(before, after),
    ensures
        after.table == before.table,
        after.descriptor == before.descriptor,
        after.kind == before.kind,
        after.definition == before.definition,
        before.descriptor@ == "by_id"@ || before.descriptor@ == "by_creation_time"@
            || before.state is Backfilling ==> after.state == before.state,
        before.descriptor@ != "by_id"@ && before.descriptor@ != "by_creation_time"@ && !(
        before.state is Backfilling) ==> (after.state matches IndexState::Backfilling {
            staged,
            created_lower_bound,
            retention_started,
            progress,
        } && staged == before.state.staged() && created_lower_bound == 0 && !retention_started
            && progress@.len() == 0),
{
}

/// Where two indexes differ both are named, the replicated one first.
pub proof fn different_indexes_are_named(
    m: IndexMetadata,
    id: u128,
    existing: u128,
    tablet: TabletId,
)
    ensures
        different_config(m, id, existing).text == "Replicated _index metadata for "@
            + routing::tablet_text(m.table) + "."@ + m.descriptor@ + " has document id "@
            + text::hex_padded(id as nat, 32) + " but local index id "@
            + text::hex_padded(existing as nat, 32) + " already exists with different config"@,
        different_config(m, id, existing).occ is None,
        unmapped_index(tablet).text == "Cannot remap replicated _index metadata for source TabletId "@
            + routing::tablet_text(tablet) + ": table is not mapped locally"@,
        unmapped_index(tablet).occ is None,
{
}

} // verus!
