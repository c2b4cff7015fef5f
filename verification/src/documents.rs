//! Documents, the tables they live in and the updates made to them.
//!
//! A document's value is opaque here, except for the two kinds of metadata that
//! commits and replication have to understand: the rows of the `_tables` table,
//! which describe tables, and the rows of the `_index` table, which describe
//! indexes.
use crate::names::{TableName, TabletId};
use crate::text;
use std::sync::Arc;
use vstd::prelude::*;
use vstd::string::*;

verus! {

/// The table whose rows describe tables.
pub const TABLES_TABLE: &'static str = "_tables";

/// The table whose rows describe indexes.
pub const INDEX_TABLE: &'static str = "_index";

/// Another handle on the same value.
///
/// Calls [`Arc::clone`], which makes a second pointer to the allocation: what
/// the new handle points to is what the old one points to.
#[verifier::external_body]
pub(crate) fn share<T>(value: &Arc<T>) -> (r: Arc<T>)
    ensures
        r == *value,
{
    value.clone()
}

/// Identifies a document: the table it is stored in on this node, the number
/// the table is known by everywhere, and the document itself.
#[derive(Clone, Copy, Debug, PartialEq, Eq, Structural)]
pub struct DocumentId {
    pub tablet: TabletId,
    pub number: u32,
    pub internal: u128,
}

/// Where a document is stored, whatever its table's number.
#[derive(Clone, Copy, Debug, PartialEq, Eq, Structural)]
pub struct StoredId {
    pub tablet: TabletId,
    pub internal: u128,
}

impl DocumentId {
    /// Where the document is stored.
    pub open spec fn stored(self) -> StoredId {
        StoredId { tablet: self.tablet, internal: self.internal }
    }

    /// The same document in the table that another node calls `tablet`.
    pub open spec fn moved_to(self, tablet: TabletId) -> DocumentId {
        DocumentId { tablet, number: self.number, internal: self.internal }
    }

    /// Where the document is stored.
    pub fn stored_id(self) -> (r: StoredId)
        ensures
            r == self.stored(),
    {
        StoredId { tablet: self.tablet, internal: self.internal }
    }

    /// The same document in the table that another node calls `tablet`.
    pub fn in_tablet(self, tablet: TabletId) -> (r: DocumentId)
        ensures
            r == self.moved_to(tablet),
    {
        DocumentId { tablet, number: self.number, internal: self.internal }
    }
}

/// The part of the table namespace a table belongs to.
#[derive(Clone, Copy, Debug, PartialEq, Eq, Structural)]
pub enum Namespace {
    Global,
    Component(u128),
}

/// Whether a table is in use.
#[derive(Clone, Copy, Debug, PartialEq, Eq, Structural)]
pub enum TableState {
    Active,
    Hidden,
    Deleting,
}

/// What a row of the `_tables` table says.
#[derive(Debug)]
pub struct TableMetadata {
    pub name: TableName,
    pub number: u32,
    pub namespace: Namespace,
    pub state: TableState,
}

/// What an index is for.
#[derive(Clone, Copy, Debug, PartialEq, Eq, Structural)]
pub enum IndexKind {
    Database,
    Text,
    Vector,
}

/// How far an index has been built.
#[derive(Debug)]
pub enum IndexState {
    /// Being built. The lower bound says from when on writes have kept the index
    /// up to date by themselves.
    Backfilling { staged: bool, created_lower_bound: u64, retention_started: bool, progress: Arc<Vec<u8>> },
    /// Built but not in use yet.
    Backfilled { staged: bool, detail: Arc<Vec<u8>> },
    /// In use for queries.
    Enabled { detail: Arc<Vec<u8>> },
}

impl IndexState {
    /// Whether the index is to stay out of use when it is built.
    pub open spec fn staged(self) -> bool {
        match self {
            IndexState::Backfilling { staged, .. } => staged,
            IndexState::Backfilled { staged, .. } => staged,
            IndexState::Enabled { .. } => false,
        }
    }

    /// Whether the index is to stay out of use when it is built.
    pub fn is_staged(&self) -> (r: bool)
        ensures
            r == self.staged(),
    {
        match self {
            IndexState::Backfilling { staged, .. } => *staged,
            IndexState::Backfilled { staged, .. } => *staged,
            IndexState::Enabled { .. } => false,
        }
    }

    /// Another handle on the same state.
    pub fn copy(&self) -> (r: Self)
        ensures
            r == *self,
    {
        match self {
            IndexState::Backfilling { staged, created_lower_bound, retention_started, progress } => {
                IndexState::Backfilling {
                    staged: *staged,
                    created_lower_bound: *created_lower_bound,
                    retention_started: *retention_started,
                    progress: share(progress),
                }
            },
            IndexState::Backfilled { staged, detail } => IndexState::Backfilled {
                staged: *staged,
                detail: share(detail),
            },
            IndexState::Enabled { detail } => IndexState::Enabled { detail: share(detail) },
        }
    }
}

/// What a row of the `_index` table says: the index's table and descriptor,
/// what it is for, how it is defined, and how far it has been built.
#[derive(Debug)]
pub struct IndexMetadata {
    pub table: TabletId,
    pub descriptor: Arc<String>,
    pub kind: IndexKind,
    pub definition: Arc<Vec<u8>>,
    pub state: IndexState,
}

impl IndexMetadata {
    /// Whether this is one of the two indexes that every table has.
    pub open spec fn builtin(self) -> bool {
        self.descriptor@ == "by_id"@ || self.descriptor@ == "by_creation_time"@
    }

    /// Whether this is one of the two indexes that every table has.
    pub fn is_by_id_or_creation_time(&self) -> (r: bool)
        ensures
            r == self.builtin(),
    {
        text::same(self.descriptor.as_str(), "by_id") || text::same(
            self.descriptor.as_str(),
            "by_creation_time",
        )
    }

    /// Whether queries can use the index.
    pub fn is_enabled(&self) -> (r: bool)
        ensures
            r == (self.state is Enabled),
    {
        match &self.state {
            IndexState::Enabled { .. } => true,
            _ => false,
        }
    }

    /// Whether the index is being built.
    pub fn is_backfilling(&self) -> (r: bool)
        ensures
            r == (self.state is Backfilling),
    {
        match &self.state {
            IndexState::Backfilling { .. } => true,
            _ => false,
        }
    }

    /// Another handle on the same metadata.
    pub fn copy(&self) -> (r: Self)
        ensures
            r == *self,
    {
        IndexMetadata {
            table: self.table,
            descriptor: share(&self.descriptor),
            kind: self.kind,
            definition: share(&self.definition),
            state: self.state.copy(),
        }
    }
}

/// What a document holds.
#[derive(Debug)]
pub enum Content {
    Table(Arc<TableMetadata>),
    Index(IndexMetadata),
    Data(Arc<Vec<u8>>),
}

impl Content {
    /// Another handle on the same content.
    pub fn copy(&self) -> (r: Self)
        ensures
            r == *self,
    {
        match self {
            Content::Table(m) => Content::Table(share(m)),
            Content::Index(m) => Content::Index(m.copy()),
            Content::Data(d) => Content::Data(share(d)),
        }
    }
}

/// A document.
#[derive(Debug)]
pub struct Document {
    pub id: DocumentId,
    pub creation_time: u64,
    pub size: u64,
    pub content: Content,
}

/// The document as it is in the table that another node calls `tablet`.
pub open spec fn moved(d: Document, tablet: TabletId) -> Document {
    Document {
        id: d.id.moved_to(tablet),
        creation_time: d.creation_time,
        size: d.size,
        content: d.content,
    }
}

/// [`moved`] where there is a document.
pub open spec fn moved_opt(d: Option<Arc<Document>>, tablet: TabletId) -> Option<Arc<Document>> {
    match d {
        Some(d) => Some(Arc::new(moved(*d, tablet))),
        None => None,
    }
}

impl Document {
    /// The document as it is in the table that another node calls `tablet`.
    pub fn to_remapped(&self, tablet: TabletId) -> (r: Document)
        ensures
            r == moved(*self, tablet),
    {
        Document {
            id: self.id.in_tablet(tablet),
            creation_time: self.creation_time,
            size: self.size,
            content: self.content.copy(),
        }
    }
}

/// [`Document::to_remapped`] where there is a document.
pub fn remapped_document(d: &Option<Arc<Document>>, tablet: TabletId) -> (r: Option<Arc<Document>>)
    ensures
        r == moved_opt(*d, tablet),
{
    match d {
        Some(d) => Some(Arc::new(d.to_remapped(tablet))),
        None => None,
    }
}

/// Another handle on the same document, where there is one.
pub fn share_document(d: &Option<Arc<Document>>) -> (r: Option<Arc<Document>>)
    ensures
        r == *d,
{
    match d {
        Some(d) => Some(share(d)),
        None => None,
    }
}

/// A change of one document: what it was and what it is, where it is.
#[derive(Debug)]
pub struct DocumentUpdate {
    pub id: DocumentId,
    pub old_document: Option<Arc<Document>>,
    pub new_document: Option<Arc<Document>>,
}

/// The update as it is in the table that another node calls `tablet`.
pub open spec fn moved_update(u: DocumentUpdate, tablet: TabletId) -> DocumentUpdate {
    DocumentUpdate {
        id: u.id.moved_to(tablet),
        old_document: moved_opt(u.old_document, tablet),
        new_document: moved_opt(u.new_document, tablet),
    }
}

impl DocumentUpdate {
    /// Another handle on the same update.
    pub fn copy(&self) -> (r: Self)
        ensures
            r == *self,
    {
        DocumentUpdate {
            id: self.id,
            old_document: share_document(&self.old_document),
            new_document: share_document(&self.new_document),
        }
    }

    /// The update as it is in the table that another node calls `tablet`.
    pub fn to_remapped(&self, tablet: TabletId) -> (r: Self)
        ensures
            r == moved_update(*self, tablet),
            r.id.tablet == tablet,
            r.id.number == self.id.number,
            r.id.internal == self.id.internal,
            differs_in_table_only(self.old_document, r.old_document, tablet),
            differs_in_table_only(self.new_document, r.new_document, tablet),
    {
        DocumentUpdate {
            id: self.id.in_tablet(tablet),
            old_document: remapped_document(&self.old_document, tablet),
            new_document: remapped_document(&self.new_document, tablet),
        }
    }
}

/// A change of one document that remembers when the replaced revision was
/// written.
#[derive(Debug)]
pub struct DocumentWrite {
    pub id: DocumentId,
    pub old_document: Option<(Arc<Document>, u64)>,
    pub new_document: Option<Arc<Document>>,
}

impl DocumentWrite {
    /// The update without the time of the replaced revision.
    pub open spec fn as_update(self) -> DocumentUpdate {
        DocumentUpdate {
            id: self.id,
            old_document: match self.old_document {
                Some((d, _)) => Some(d),
                None => None,
            },
            new_document: self.new_document,
        }
    }

    /// When the replaced revision was written.
    pub open spec fn prev_ts(self) -> Option<u64> {
        match self.old_document {
            Some((_, ts)) => Some(ts),
            None => None,
        }
    }

    /// The update without the time of the replaced revision.
    pub fn to_update(&self) -> (r: DocumentUpdate)
        ensures
            r == self.as_update(),
            r.id == self.id,
            r.new_document == self.new_document,
            r.old_document is Some <==> self.old_document is Some,
            self.old_document matches Some(p) ==> r.old_document == Some(p.0),
    {
        DocumentUpdate {
            id: self.id,
            old_document: match &self.old_document {
                Some(p) => Some(share(&p.0)),
                None => None,
            },
            new_document: share_document(&self.new_document),
        }
    }

    /// When the replaced revision was written.
    pub fn previous_ts(&self) -> (r: Option<u64>)
        ensures
            r == self.prev_ts(),
            r is Some <==> self.old_document is Some,
            self.old_document matches Some(p) ==> r == Some(p.1),
    {
        match &self.old_document {
            Some(p) => Some(p.1),
            None => None,
        }
    }

    /// Another handle on the same write.
    pub fn copy(&self) -> (r: Self)
        ensures
            r == *self,
    {
        DocumentWrite {
            id: self.id,
            old_document: match &self.old_document {
                Some(p) => Some((share(&p.0), p.1)),
                None => None,
            },
            new_document: share_document(&self.new_document),
        }
    }
}

/// One revision in the document log.
#[derive(Debug)]
pub struct DocumentLogEntry {
    pub ts: u64,
    pub id: StoredId,
    pub value: Option<Arc<Document>>,
    pub prev_ts: Option<u64>,
}

impl DocumentLogEntry {
    /// Another handle on the same entry.
    pub fn copy(&self) -> (r: Self)
        ensures
            r == *self,
    {
        DocumentLogEntry {
            ts: self.ts,
            id: self.id,
            value: share_document(&self.value),
            prev_ts: self.prev_ts,
        }
    }
}

/// One entry of a stored index.
#[derive(Debug)]
pub struct IndexEntry {
    pub ts: u64,
    pub index_id: u128,
    pub key: Arc<Vec<u8>>,
    pub value: Option<StoredId>,
}

impl IndexEntry {
    /// Another handle on the same entry.
    pub fn copy(&self) -> (r: Self)
        ensures
            r == *self,
    {
        IndexEntry { ts: self.ts, index_id: self.index_id, key: share(&self.key), value: self.value }
    }
}

/// One table of a [`TableMapping`].
#[derive(Debug)]
pub struct TableInfo {
    pub tablet: TabletId,
    pub namespace: Namespace,
    pub number: u32,
    pub name: Arc<TableName>,
    /// Whether the name stands for this table. A hidden table has a name, but
    /// looking the name up does not find it.
    pub active: bool,
}

/// The tables a node knows.
#[derive(Debug)]
pub struct TableMapping {
    pub tables: Vec<TableInfo>,
}

/// The first table that is stored as `tablet`.
pub open spec fn stored_as(tables: Seq<TableInfo>, tablet: TabletId) -> Option<TableInfo>
    decreases tables.len(),
{
    if tables.len() == 0 {
        None
    } else if tables[0].tablet == tablet {
        Some(tables[0])
    } else {
        stored_as(tables.skip(1), tablet)
    }
}

/// The name of the table that is stored as `tablet`.
pub open spec fn name_of(tables: Seq<TableInfo>, tablet: TabletId) -> Option<Seq<char>> {
    match stored_as(tables, tablet) {
        Some(t) => Some(t.name@),
        None => None,
    }
}

/// The first active table called `name`, in any namespace.
pub open spec fn called(tables: Seq<TableInfo>, name: Seq<char>) -> Option<TableInfo>
    decreases tables.len(),
{
    if tables.len() == 0 {
        None
    } else if tables[0].active && tables[0].name@ == name {
        Some(tables[0])
    } else {
        called(tables.skip(1), name)
    }
}

/// The first active table called `name` in `namespace`.
pub open spec fn called_in(tables: Seq<TableInfo>, namespace: Namespace, name: Seq<char>) -> Option<TableInfo>
    decreases tables.len(),
{
    if tables.len() == 0 {
        None
    } else if tables[0].active && tables[0].namespace == namespace && tables[0].name@ == name {
        Some(tables[0])
    } else {
        called_in(tables.skip(1), namespace, name)
    }
}

impl TableMapping {
    /// The table that is stored as `tablet`.
    pub fn find(&self, tablet: TabletId) -> (r: Option<&TableInfo>)
        ensures
            match r {
                Some(t) => stored_as(self.tables@, tablet) == Some(*t),
                None => stored_as(self.tables@, tablet) is None,
            },
    {
        let mut i: usize = 0;
        assert(self.tables@.skip(0) =~= self.tables@);
        while i < self.tables.len()
            invariant
                i <= self.tables@.len(),
                stored_as(self.tables@, tablet) == stored_as(self.tables@.skip(i as int), tablet),
            decreases self.tables@.len() - i,
        {
            if self.tables[i].tablet == tablet {
                return Some(&self.tables[i]);
            }
            assert(self.tables@.skip(i as int).skip(1) =~= self.tables@.skip(i + 1));
            i += 1;
        }
        None
    }

    /// The name of the table that is stored as `tablet`.
    pub fn tablet_name(&self, tablet: TabletId) -> (r: Option<&TableName>)
        ensures
            match r {
                Some(n) => name_of(self.tables@, tablet) == Some(n@),
                None => name_of(self.tables@, tablet) is None,
            },
    {
        match self.find(tablet) {
            Some(t) => Some(&t.name),
            None => None,
        }
    }

    /// The active table called `name`, in any namespace.
    pub fn find_named(&self, name: &TableName) -> (r: Option<&TableInfo>)
        ensures
            match r {
                Some(t) => called(self.tables@, name@) == Some(*t),
                None => called(self.tables@, name@) is None,
            },
    {
        let mut i: usize = 0;
        assert(self.tables@.skip(0) =~= self.tables@);
        while i < self.tables.len()
            invariant
                i <= self.tables@.len(),
                called(self.tables@, name@) == called(self.tables@.skip(i as int), name@),
            decreases self.tables@.len() - i,
        {
            if self.tables[i].active && text::same(self.tables[i].name.as_str(), name.as_str()) {
                return Some(&self.tables[i]);
            }
            assert(self.tables@.skip(i as int).skip(1) =~= self.tables@.skip(i + 1));
            i += 1;
        }
        None
    }

    /// The active table called `name` in `namespace`.
    pub fn find_in(&self, namespace: Namespace, name: &str) -> (r: Option<&TableInfo>)
        ensures
            match r {
                Some(t) => called_in(self.tables@, namespace, name@) == Some(*t),
                None => called_in(self.tables@, namespace, name@) is None,
            },
    {
        let mut i: usize = 0;
        assert(self.tables@.skip(0) =~= self.tables@);
        while i < self.tables.len()
            invariant
                i <= self.tables@.len(),
                called_in(self.tables@, namespace, name@) == called_in(
                    self.tables@.skip(i as int),
                    namespace,
                    name@,
                ),
            decreases self.tables@.len() - i,
        {
            if self.tables[i].active && self.tables[i].namespace == namespace && text::same(
                self.tables[i].name.as_str(),
                name,
            ) {
                return Some(&self.tables[i]);
            }
            assert(self.tables@.skip(i as int).skip(1) =~= self.tables@.skip(i + 1));
            i += 1;
        }
        None
    }
}

/// What a transaction read, as far as other nodes are concerned: the tables of
/// the indexes it used.
#[derive(Debug)]
pub struct ReadSet {
    /// The tables of the database indexes that were read, one for each index.
    pub indexed: Vec<TabletId>,
    /// The tables of the search indexes that were read, one for each index.
    pub search: Vec<TabletId>,
}

impl ReadSet {
    /// All tables that were read, in the order in which their indexes are listed.
    pub open spec fn tablets(self) -> Seq<TabletId> {
        self.indexed@ + self.search@
    }

    /// How many indexes were read.
    pub open spec fn count(self) -> nat {
        self.indexed@.len() + self.search@.len()
    }
}

/// Where a document is stored is its table and itself, and another node's table
/// changes nothing but the table.
pub proof fn ids_keep_their_document(id: DocumentId, tablet: TabletId)
    ensures
        id.stored().tablet == id.tablet,
        id.stored().internal == id.internal,
        id.moved_to(tablet).tablet == tablet,
        id.moved_to(tablet).number == id.number,
        id.moved_to(tablet).internal == id.internal,
        id.moved_to(tablet).moved_to(id.tablet) == id,
{
}

/// `there` is what `here` is in the table `tablet`: there is a document where there
/// was one, with the same content, times and size, and only its table differs.
pub open spec fn differs_in_table_only(
    here: Option<Arc<Document>>,
    there: Option<Arc<Document>>,
    tablet: TabletId,
) -> bool {
    match (here, there) {
        (Some(a), Some(b)) => {
            &&& b.content == a.content
            &&& b.creation_time == a.creation_time
            &&& b.size == a.size
            &&& b.id.internal == a.id.internal
            &&& b.id.number == a.id.number
            &&& b.id.tablet == tablet
        },
        (None, None) => true,
        _ => false,
    }
}

/// An update that is applied in another table keeps what was committed: the new
/// document comes from the new document and the old one from the old one, each with
/// its content.
pub proof fn remapped_updates_keep_what_was_committed(u: DocumentUpdate, tablet: TabletId)
    ensures
        ({
            let m = moved_update(u, tablet);
            &&& m.id.tablet == tablet
            &&& m.id.number == u.id.number
            &&& m.id.internal == u.id.internal
            &&& m.new_document is Some <==> u.new_document is Some
            &&& m.old_document is Some <==> u.old_document is Some
            &&& u.new_document matches Some(d) ==> {
                let n = m.new_document->0;
                &&& n.content == d.content
                &&& n.creation_time == d.creation_time
                &&& n.size == d.size
                &&& n.id.internal == d.id.internal
                &&& n.id.number == d.id.number
                &&& n.id.tablet == tablet
            }
            &&& u.old_document matches Some(d) ==> {
                let n = m.old_document->0;
                &&& n.content == d.content
                &&& n.creation_time == d.creation_time
                &&& n.size == d.size
                &&& n.id.internal == d.id.internal
                &&& n.id.number == d.id.number
                &&& n.id.tablet == tablet
            }
        }),
{
}

/// An update that goes to another table and back is what it was.
pub proof fn remapping_can_be_undone(u: DocumentUpdate, tablet: TabletId)
    requires
        u.new_document matches Some(d) ==> d.id.tablet == u.id.tablet,
        u.old_document matches Some(d) ==> d.id.tablet == u.id.tablet,
    ensures
        moved_update(moved_update(u, tablet), u.id.tablet) == u,
{
}

/// A write says what the document was and is, and when the replaced revision was
/// written; as an update it says the first two.
pub proof fn writes_keep_both_revisions(w: DocumentWrite)
    ensures
        w.as_update().id == w.id,
        w.as_update().new_document == w.new_document,
        match w.old_document {
            Some((d, ts)) => w.as_update().old_document == Some(d) && w.prev_ts() == Some(ts),
            None => w.as_update().old_document is None && w.prev_ts() is None,
        },
{
}

/// A table that is found is in the mapping and is stored where it was looked for,
/// and the first such; where none is found none is there.
pub proof fn tables_are_found_where_they_are_stored(tables: Seq<TableInfo>, tablet: TabletId)
    ensures
        match stored_as(tables, tablet) {
            Some(t) => exists|i: int|
                0 <= i < tables.len() && (#[trigger] tables[i]) == t && t.tablet == tablet && (
                forall|j: int| 0 <= j < i ==> (#[trigger] tables[j]).tablet != tablet),
            None => forall|i: int| 0 <= i < tables.len() ==> (#[trigger] tables[i]).tablet != tablet,
        },
        match name_of(tables, tablet) {
            Some(name) => exists|i: int|
                0 <= i < tables.len() && (#[trigger] tables[i]).tablet == tablet && tables[i].name@
                    == name,
            None => forall|i: int| 0 <= i < tables.len() ==> (#[trigger] tables[i]).tablet != tablet,
        },
    decreases tables.len(),
{
    if tables.len() > 0 && tables[0].tablet != tablet {
        let rest = tables.skip(1);
        tables_are_found_where_they_are_stored(rest, tablet);
        match stored_as(rest, tablet) {
            Some(t) => {
                let i = choose|i: int|
                    0 <= i < rest.len() && (#[trigger] rest[i]) == t && t.tablet == tablet && (
                    forall|j: int| 0 <= j < i ==> (#[trigger] rest[j]).tablet != tablet);
                assert(tables[i + 1] == t);
                assert forall|j: int| 0 <= j < i + 1 implies (#[trigger] tables[j]).tablet
                    != tablet by {
                    if j > 0 {
                        assert(rest[j - 1] == tables[j]);
                    }
                }
            },
            None => {
                assert forall|j: int| 0 <= j < tables.len() implies (#[trigger] tables[j]).tablet
                    != tablet by {
                    if j > 0 {
                        assert(rest[j - 1] == tables[j]);
                    }
                }
            },
        }
    } else if tables.len() > 0 {
        assert(tables[0].tablet == tablet);
    }
}

/// A table that is found by its name is in the mapping, is active and is called so,
/// and the first such; where none is found none is there.
pub proof fn tables_are_found_by_their_names(tables: Seq<TableInfo>, name: Seq<char>)
    ensures
        match called(tables, name) {
            Some(t) => exists|i: int|
                0 <= i < tables.len() && (#[trigger] tables[i]) == t && t.active && t.name@ == name
                    && (forall|j: int|
                    0 <= j < i ==> !((#[trigger] tables[j]).active && tables[j].name@ == name)),
            None => forall|i: int|
                0 <= i < tables.len() ==> !((#[trigger] tables[i]).active && tables[i].name@
                    == name),
        },
    decreases tables.len(),
{
    if tables.len() > 0 && !(tables[0].active && tables[0].name@ == name) {
        let rest = tables.skip(1);
        tables_are_found_by_their_names(rest, name);
        match called(rest, name) {
            Some(t) => {
                let i = choose|i: int|
                    0 <= i < rest.len() && (#[trigger] rest[i]) == t && t.active && t.name@ == name
                        && (forall|j: int|
                        0 <= j < i ==> !((#[trigger] rest[j]).active && rest[j].name@ == name));
                assert(tables[i + 1] == t);
                assert forall|j: int| 0 <= j < i + 1 implies !((#[trigger] tables[j]).active
                    && tables[j].name@ == name) by {
                    if j > 0 {
                        assert(rest[j - 1] == tables[j]);
                    }
                }
            },
            None => {
                assert forall|j: int| 0 <= j < tables.len() implies !((#[trigger] tables[j]).active
                    && tables[j].name@ == name) by {
                    if j > 0 {
                        assert(rest[j - 1] == tables[j]);
                    }
                }
            },
        }
    } else if tables.len() > 0 {
        assert(tables[0].active);
    }
}

/// A table that is found by its name in a namespace is in the mapping, is active, is
/// in that namespace and is called so; where none is found none is there.
pub proof fn tables_are_found_in_their_namespaces(
    tables: Seq<TableInfo>,
    namespace: Namespace,
    name: Seq<char>,
)
    ensures
        match called_in(tables, namespace, name) {
            Some(t) => exists|i: int|
                0 <= i < tables.len() && (#[trigger] tables[i]) == t && t.active && t.namespace
                    == namespace && t.name@ == name,
            None => forall|i: int|
                0 <= i < tables.len() ==> !((#[trigger] tables[i]).active && tables[i].namespace
                    == namespace && tables[i].name@ == name),
        },
    decreases tables.len(),
{
    if tables.len() > 0 && !(tables[0].active && tables[0].namespace == namespace
        && tables[0].name@ == name) {
        let rest = tables.skip(1);
        tables_are_found_in_their_namespaces(rest, namespace, name);
        match called_in(rest, namespace, name) {
            Some(t) => {
                let i = choose|i: int|
                    0 <= i < rest.len() && (#[trigger] rest[i]) == t && t.active && t.namespace
                        == namespace && t.name@ == name;
                assert(tables[i + 1] == t);
            },
            None => {
                assert forall|j: int| 0 <= j < tables.len() implies !((#[trigger] tables[j]).active
                    && tables[j].namespace == namespace && tables[j].name@ == name) by {
                    if j > 0 {
                        assert(rest[j - 1] == tables[j]);
                    }
                }
            },
        }
    } else if tables.len() > 0 {
        assert(tables[0].active);
    }
}

/// A table was read exactly where one of its indexes was, of either kind.
pub proof fn read_sets_name_every_table(reads: ReadSet, tablet: TabletId)
    ensures
        reads.tablets().contains(tablet) <==> (reads.indexed@.contains(tablet)
            || reads.search@.contains(tablet)),
        reads.count() == reads.tablets().len(),
{
    let all = reads.tablets();
    if reads.indexed@.contains(tablet) {
        let i = choose|i: int| 0 <= i < reads.indexed@.len() && reads.indexed@[i] == tablet;
        assert(all[i] == tablet);
    }
    if reads.search@.contains(tablet) {
        let i = choose|i: int| 0 <= i < reads.search@.len() && reads.search@[i] == tablet;
        assert(all[reads.indexed@.len() + i] == tablet);
    }
    if all.contains(tablet) {
        let i = choose|i: int| 0 <= i < all.len() && all[i] == tablet;
        if i < reads.indexed@.len() {
            assert(reads.indexed@[i] == tablet);
        } else {
            assert(reads.search@[i - reads.indexed@.len()] == tablet);
        }
    }
}

/// An index that is in use is not staged; one that is not says itself whether it is.
pub proof fn indexes_in_use_are_not_staged(state: IndexState)
    ensures
        state is Enabled ==> !state.staged(),
        state matches IndexState::Backfilling { staged, .. } ==> state.staged() == staged,
        state matches IndexState::Backfilled { staged, .. } ==> state.staged() == staged,
{
}

} // verus!
