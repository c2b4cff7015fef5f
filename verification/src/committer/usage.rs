//! What a commit is charged for.
use super::staging::{IndexWrite, ValidatedDocumentWrite};
use crate::documents;
use crate::documents::{share, Namespace, TableInfo, TableMapping};
use crate::names;
use crate::text;
use std::sync::Arc;
use vstd::prelude::*;
use vstd::string::*;

verus! {

/// A namespace and the path of its component.
#[derive(Debug)]
pub struct ComponentEntry {
    pub namespace: Namespace,
    pub path: Arc<String>,
}

/// A table of the system and the name under which users see it.
#[derive(Debug)]
pub struct VirtualTable {
    pub system: String,
    pub visible: String,
}

/// What the tables of a commit are called, and whom they belong to.
#[derive(Debug)]
pub struct UsageContext {
    pub components: Vec<ComponentEntry>,
    pub virtual_tables: Vec<VirtualTable>,
}

/// What was written.
#[derive(Clone, Copy, Debug, PartialEq, Eq, Structural)]
pub enum UsageKind {
    /// To the database, by the names of the tables.
    Database,
    /// To the database, by the names that users see.
    DatabaseV2,
    /// To vector indexes, along with a document of this size.
    Vector { document_bytes: u64 },
    /// To text indexes.
    Text,
}

/// One item that a commit is charged for.
#[derive(Debug)]
pub struct UsageItem {
    pub kind: UsageKind,
    /// The path of the component; unset for the root.
    pub component: Option<Arc<String>>,
    pub table: String,
    pub bytes: u64,
    /// Whether the system pays for it.
    pub skip_charge: bool,
}

/// One item, as contracts speak of it.
#[verifier::ext_equal]
pub struct Charge {
    pub kind: UsageKind,
    pub component: Option<Arc<String>>,
    pub table: Seq<char>,
    pub bytes: u64,
    pub skip_charge: bool,
}

impl View for UsageItem {
    type V = Charge;

    open spec fn view(&self) -> Charge {
        Charge {
            kind: self.kind,
            component: self.component,
            table: self.table@,
            bytes: self.bytes,
            skip_charge: self.skip_charge,
        }
    }
}

/// The items, as contracts speak of them.
pub open spec fn charges(items: Seq<UsageItem>) -> Seq<Charge> {
    items.map_values(|i: UsageItem| i@)
}

/// The component that a namespace belongs to. A component may be deleted by the
/// very transaction that is charged; the root then stands in for it.
pub open spec fn component_of(components: Seq<ComponentEntry>, namespace: Namespace) -> Option<Arc<String>>
    decreases components.len(),
{
    if components.len() == 0 {
        None
    } else if components[0].namespace == namespace {
        Some(components[0].path)
    } else {
        component_of(components.skip(1), namespace)
    }
}

/// The name under which users see a table of the system, if they do.
pub open spec fn visible_name(virtual_tables: Seq<VirtualTable>, name: Seq<char>) -> Option<Seq<char>>
    decreases virtual_tables.len(),
{
    if virtual_tables.len() == 0 {
        None
    } else if virtual_tables[0].system@ == name {
        Some(virtual_tables[0].visible@)
    } else {
        visible_name(virtual_tables.skip(1), name)
    }
}

fn find_component(components: &Vec<ComponentEntry>, namespace: Namespace) -> (r: Option<Arc<String>>)
    ensures
        r == component_of(components@, namespace),
{
    let mut i: usize = 0;
    assert(components@.skip(0) =~= components@);
    while i < components.len()
        invariant
            i <= components@.len(),
            component_of(components@, namespace) == component_of(
                components@.skip(i as int),
                namespace,
            ),
        decreases components@.len() - i,
    {
        if components[i].namespace == namespace {
            return Some(share(&components[i].path));
        }
        assert(components@.skip(i as int).skip(1) =~= components@.skip(i + 1));
        i += 1;
    }
    None
}

fn find_visible<'a>(virtual_tables: &'a Vec<VirtualTable>, name: &str) -> (r: Option<&'a str>)
    ensures
        match r {
            Some(v) => visible_name(virtual_tables@, name@) == Some(v@),
            None => visible_name(virtual_tables@, name@) is None,
        },
{
    let mut i: usize = 0;
    assert(virtual_tables@.skip(0) =~= virtual_tables@);
    while i < virtual_tables.len()
        invariant
            i <= virtual_tables@.len(),
            visible_name(virtual_tables@, name@) == visible_name(
                virtual_tables@.skip(i as int),
                name@,
            ),
        decreases virtual_tables@.len() - i,
    {
        if text::same(virtual_tables[i].system.as_str(), name) {
            return Some(virtual_tables[i].visible.as_str());
        }
        assert(virtual_tables@.skip(i as int).skip(1) =~= virtual_tables@.skip(i + 1));
        i += 1;
    }
    None
}

/// What a write of `bytes` to the database is charged as: once by the name of
/// the table, where the system pays for its own tables and its own indexes, and
/// once by the name that users see, where it does not pay for a table that users
/// see.
pub open spec fn database_charges(
    t: TableInfo,
    bytes: u64,
    is_system_index: bool,
    components: Seq<ComponentEntry>,
    virtual_tables: Seq<VirtualTable>,
) -> Seq<Charge> {
    let component = component_of(components, t.namespace);
    let visible = visible_name(virtual_tables, t.name@);
    let system = names::is_system_name(t.name@);
    seq![
        Charge {
            kind: UsageKind::Database,
            component,
            table: t.name@,
            bytes,
            skip_charge: system || is_system_index,
        },
        Charge {
            kind: UsageKind::DatabaseV2,
            component,
            table: match visible {
                Some(v) => v,
                None => t.name@,
            },
            bytes,
            skip_charge: (system && visible is None) || is_system_index,
        },
    ]
}

/// What one change of an index is charged as.
pub open spec fn index_charges(
    w: IndexWrite,
    tables: Seq<TableInfo>,
    components: Seq<ComponentEntry>,
    virtual_tables: Seq<VirtualTable>,
) -> Seq<Charge> {
    match w.document {
        None => Seq::empty(),
        Some(tablet) => match documents::stored_as(tables, tablet) {
            None => Seq::empty(),
            Some(t) => database_charges(
                t,
                w.key_bytes,
                w.is_system_index,
                components,
                virtual_tables,
            ),
        },
    }
}

/// What one written document is charged as.
pub open spec fn document_charges(
    w: ValidatedDocumentWrite,
    tables: Seq<TableInfo>,
    components: Seq<ComponentEntry>,
    virtual_tables: Seq<VirtualTable>,
) -> Seq<Charge> {
    match w.write {
        None => Seq::empty(),
        Some(d) => match documents::stored_as(tables, d.id.tablet) {
            None => Seq::empty(),
            Some(t) => {
                let component = component_of(components, t.namespace);
                let system = names::is_system_name(t.name@);
                let vector = if w.vector_bytes > 0 {
                    seq![
                        Charge {
                            kind: UsageKind::Vector { document_bytes: d.size },
                            component,
                            table: t.name@,
                            bytes: w.vector_bytes,
                            skip_charge: system,
                        },
                    ]
                } else {
                    Seq::empty()
                };
                let text = if w.text_bytes > 0 {
                    seq![
                        Charge {
                            kind: UsageKind::Text,
                            component,
                            table: t.name@,
                            bytes: w.text_bytes,
                            skip_charge: system,
                        },
                    ]
                } else {
                    Seq::empty()
                };
                database_charges(t, d.size, false, components, virtual_tables) + vector + text
            },
        },
    }
}

/// What all changes of indexes are charged as.
pub open spec fn all_index_charges(
    writes: Seq<IndexWrite>,
    tables: Seq<TableInfo>,
    components: Seq<ComponentEntry>,
    virtual_tables: Seq<VirtualTable>,
) -> Seq<Charge>
    decreases writes.len(),
{
    if writes.len() == 0 {
        Seq::empty()
    } else {
        all_index_charges(writes.drop_last(), tables, components, virtual_tables) + index_charges(
            writes.last(),
            tables,
            components,
            virtual_tables,
        )
    }
}

/// What all written documents are charged as.
pub open spec fn all_document_charges(
    writes: Seq<ValidatedDocumentWrite>,
    tables: Seq<TableInfo>,
    components: Seq<ComponentEntry>,
    virtual_tables: Seq<VirtualTable>,
) -> Seq<Charge>
    decreases writes.len(),
{
    if writes.len() == 0 {
        Seq::empty()
    } else {
        all_document_charges(writes.drop_last(), tables, components, virtual_tables)
            + document_charges(writes.last(), tables, components, virtual_tables)
    }
}

fn share_component(c: &Option<Arc<String>>) -> (r: Option<Arc<String>>)
    ensures
        r == *c,
{
    match c {
        Some(p) => Some(share(p)),
        None => None,
    }
}

fn push_item(
    items: &mut Vec<UsageItem>,
    kind: UsageKind,
    component: &Option<Arc<String>>,
    table: &str,
    bytes: u64,
    skip_charge: bool,
)
    ensures
        charges(final(items)@) == charges(old(items)@).push(
            Charge { kind, component: *component, table: table@, bytes, skip_charge },
        ),
{
    let ghost before = items@;
    items.push(
        UsageItem {
            kind,
            component: share_component(component),
            table: table.to_owned(),
            bytes,
            skip_charge,
        },
    );
    assert(charges(items@) =~= charges(before).push(
        Charge { kind, component: *component, table: table@, bytes, skip_charge },
    ));
}

fn push_database_items(
    items: &mut Vec<UsageItem>,
    t: &TableInfo,
    component: &Option<Arc<String>>,
    bytes: u64,
    is_system_index: bool,
    context: &UsageContext,
)
    requires
        *component == component_of(context.components@, t.namespace),
    ensures
        charges(final(items)@) == charges(old(items)@) + database_charges(
            *t,
            bytes,
            is_system_index,
            context.components@,
            context.virtual_tables@,
        ),
{
    let ghost before = charges(items@);
    let system: bool = t.name.is_system();
    push_item(
        items,
        UsageKind::Database,
        component,
        t.name.as_str(),
        bytes,
        system || is_system_index,
    );
    match find_visible(&context.virtual_tables, t.name.as_str()) {
        Some(v) => {
            push_item(items, UsageKind::DatabaseV2, component, v, bytes, is_system_index);
        },
        None => {
            push_item(
                items,
                UsageKind::DatabaseV2,
                component,
                t.name.as_str(),
                bytes,
                system || is_system_index,
            );
        },
    }
    assert(charges(items@) =~= before + database_charges(
        *t,
        bytes,
        is_system_index,
        context.components@,
        context.virtual_tables@,
    ));
}

/// Says what a commit is charged for: each change of an index by the size of its
/// key, each document by its size, and what goes to vector and text indexes. Of
/// a table that is not known nothing is charged.
pub fn track_commit(
    index_writes: &Vec<IndexWrite>,
    document_writes: &Vec<ValidatedDocumentWrite>,
    table_mapping: &TableMapping,
    context: &UsageContext,
) -> (r: Vec<UsageItem>)
    ensures
        charges(r@) == all_index_charges(
            index_writes@,
            table_mapping.tables@,
            context.components@,
            context.virtual_tables@,
        ) + all_document_charges(
            document_writes@,
            table_mapping.tables@,
            context.components@,
            context.virtual_tables@,
        ),
{
    let ghost tables = table_mapping.tables@;
    let ghost components = context.components@;
    let ghost virtual_tables = context.virtual_tables@;
    let mut items: Vec<UsageItem> = Vec::new();
    let mut i: usize = 0;
    assert(charges(items@) =~= Seq::<Charge>::empty());
    while i < index_writes.len()
        invariant
            i <= index_writes@.len(),
            tables == table_mapping.tables@,
            components == context.components@,
            virtual_tables == context.virtual_tables@,
            charges(items@) == all_index_charges(
                index_writes@.take(i as int),
                tables,
                components,
                virtual_tables,
            ),
        decreases index_writes@.len() - i,
    {
        let ghost before = charges(items@);
        let w = &index_writes[i];
        if let Some(tablet) = w.document {
            if let Some(t) = table_mapping.find(tablet) {
                let component = find_component(&context.components, t.namespace);
                push_database_items(
                    &mut items,
                    t,
                    &component,
                    w.key_bytes,
                    w.is_system_index,
                    context,
                );
            }
        }
        assert(index_writes@.take(i + 1).drop_last() =~= index_writes@.take(i as int));
        assert(charges(items@) =~= before + index_charges(*w, tables, components, virtual_tables));
        i += 1;
    }
    assert(index_writes@.take(i as int) =~= index_writes@);
    let ghost indexed = charges(items@);
    let mut j: usize = 0;
    assert(charges(items@) =~= indexed + all_document_charges(
        document_writes@.take(0),
        tables,
        components,
        virtual_tables,
    ));
    while j < document_writes.len()
        invariant
            j <= document_writes@.len(),
            tables == table_mapping.tables@,
            components == context.components@,
            virtual_tables == context.virtual_tables@,
            charges(items@) == indexed + all_document_charges(
                document_writes@.take(j as int),
                tables,
                components,
                virtual_tables,
            ),
        decreases document_writes@.len() - j,
    {
        let ghost before = charges(items@);
        let w = &document_writes[j];
        if let Some(d) = &w.write {
            if let Some(t) = table_mapping.find(d.id.tablet) {
                let component = find_component(&context.components, t.namespace);
                push_database_items(&mut items, t, &component, d.size, false, context);
                let system: bool = t.name.is_system();
                if w.vector_bytes > 0 {
                    push_item(
                        &mut items,
                        UsageKind::Vector { document_bytes: d.size },
                        &component,
                        t.name.as_str(),
                        w.vector_bytes,
                        system,
                    );
                }
                if w.text_bytes > 0 {
                    push_item(
                        &mut items,
                        UsageKind::Text,
                        &component,
                        t.name.as_str(),
                        w.text_bytes,
                        system,
                    );
                }
            }
        }
        assert(document_writes@.take(j + 1).drop_last() =~= document_writes@.take(j as int));
        assert(charges(items@) =~= before + document_charges(*w, tables, components, virtual_tables));
        assert(charges(items@) =~= indexed + all_document_charges(
            document_writes@.take(j + 1),
            tables,
            components,
            virtual_tables,
        ));
        j += 1;
    }
    assert(document_writes@.take(j as int) =~= document_writes@);
    items
}

/// A namespace belongs to the first component that is listed for it, and to the root
/// where none is.
pub proof fn components_are_found_by_namespace(components: Seq<ComponentEntry>, namespace: Namespace)
    ensures
        match component_of(components, namespace) {
            Some(path) => exists|i: int|
                0 <= i < components.len() && (#[trigger] components[i]).namespace == namespace
                    && components[i].path == path && forall|j: int|
                    0 <= j < i ==> (#[trigger] components[j]).namespace != namespace,
            None => forall|j: int|
                0 <= j < components.len() ==> (#[trigger] components[j]).namespace != namespace,
        },
    decreases components.len(),
{
    if components.len() > 0 && components[0].namespace != namespace {
        let rest = components.skip(1);
        components_are_found_by_namespace(rest, namespace);
        match component_of(rest, namespace) {
            Some(path) => {
                let i = choose|i: int|
                    0 <= i < rest.len() && (#[trigger] rest[i]).namespace == namespace
                        && rest[i].path == path && forall|j: int|
                        0 <= j < i ==> (#[trigger] rest[j]).namespace != namespace;
                assert(components[i + 1] == rest[i]);
                assert forall|j: int| 0 <= j < i + 1 implies (
                #[trigger] components[j]).namespace != namespace by {
                    if j > 0 {
                        assert(rest[j - 1] == components[j]);
                    }
                }
            },
            None => {
                assert forall|j: int| 0 <= j < components.len() implies (
                #[trigger] components[j]).namespace != namespace by {
                    if j > 0 {
                        assert(rest[j - 1] == components[j]);
                    }
                }
            },
        }
    }
}

/// A table of the system is seen under the first name that is listed for it.
pub proof fn visible_names_are_found_by_table(virtual_tables: Seq<VirtualTable>, name: Seq<char>)
    ensures
        match visible_name(virtual_tables, name) {
            Some(v) => exists|i: int|
                0 <= i < virtual_tables.len() && (#[trigger] virtual_tables[i]).system@ == name
                    && virtual_tables[i].visible@ == v && forall|j: int|
                    0 <= j < i ==> (#[trigger] virtual_tables[j]).system@ != name,
            None => forall|j: int|
                0 <= j < virtual_tables.len() ==> (#[trigger] virtual_tables[j]).system@ != name,
        },
    decreases virtual_tables.len(),
{
    if virtual_tables.len() > 0 && virtual_tables[0].system@ != name {
        let rest = virtual_tables.skip(1);
        visible_names_are_found_by_table(rest, name);
        match visible_name(rest, name) {
            Some(v) => {
                let i = choose|i: int|
                    0 <= i < rest.len() && (#[trigger] rest[i]).system@ == name
                        && rest[i].visible@ == v && forall|j: int|
                        0 <= j < i ==> (#[trigger] rest[j]).system@ != name;
                assert(virtual_tables[i + 1] == rest[i]);
                assert forall|j: int| 0 <= j < i + 1 implies (
                #[trigger] virtual_tables[j]).system@ != name by {
                    if j > 0 {
                        assert(rest[j - 1] == virtual_tables[j]);
                    }
                }
            },
            None => {
                assert forall|j: int| 0 <= j < virtual_tables.len() implies (
                #[trigger] virtual_tables[j]).system@ != name by {
                    if j > 0 {
                        assert(rest[j - 1] == virtual_tables[j]);
                    }
                }
            },
        }
    }
}

/// What is written to a table is charged twice, each time in full and to the table's
/// component: under the table's own name, where the system pays for its own tables
/// and indexes, and under the name that users see, where it pays for its tables only
/// if users do not see them.
pub proof fn writes_are_charged_under_both_names(
    t: TableInfo,
    bytes: u64,
    is_system_index: bool,
    components: Seq<ComponentEntry>,
    virtual_tables: Seq<VirtualTable>,
)
    requires
        t.name@.len() > 0,
    ensures
        ({
            let items = database_charges(t, bytes, is_system_index, components, virtual_tables);
            let visible = visible_name(virtual_tables, t.name@);
            &&& items.len() == 2
            &&& items[0].kind == UsageKind::Database && items[1].kind == UsageKind::DatabaseV2
            &&& items[0].bytes == bytes && items[1].bytes == bytes
            &&& items[0].component == component_of(components, t.namespace)
            &&& items[1].component == component_of(components, t.namespace)
            &&& items[0].table == t.name@
            &&& visible matches Some(v) ==> items[1].table == v
            &&& visible is None ==> items[1].table == t.name@
            &&& items[0].skip_charge <==> t.name@[0] == '_' || is_system_index
            &&& items[1].skip_charge <==> (t.name@[0] == '_' && visible is None) || is_system_index
        }),
{
}

/// An index entry is charged for its key, to the table of the document it is for;
/// one that goes is not charged.
pub proof fn index_entries_are_charged_for_their_keys(
    w: IndexWrite,
    tables: Seq<TableInfo>,
    components: Seq<ComponentEntry>,
    virtual_tables: Seq<VirtualTable>,
)
    ensures
        ({
            let items = index_charges(w, tables, components, virtual_tables);
            &&& w.document is None ==> items.len() == 0
            &&& w.document matches Some(tablet) ==> match documents::stored_as(tables, tablet) {
                None => items.len() == 0,
                Some(t) => {
                    &&& items.len() == 2
                    &&& items[0].bytes == w.key_bytes && items[1].bytes == w.key_bytes
                    &&& items[0].table == t.name@
                    &&& w.is_system_index ==> items[0].skip_charge && items[1].skip_charge
                },
            }
        }),
{
}

/// A document is charged for its size, and once more for what it takes in vector
/// indexes and in text indexes, where it takes anything there; one that goes is not
/// charged.
pub proof fn documents_are_charged_for_their_sizes(
    w: ValidatedDocumentWrite,
    tables: Seq<TableInfo>,
    components: Seq<ComponentEntry>,
    virtual_tables: Seq<VirtualTable>,
)
    ensures
        ({
            let items = document_charges(w, tables, components, virtual_tables);
            let vectors: int = if w.vector_bytes > 0 {
                1
            } else {
                0
            };
            let texts: int = if w.text_bytes > 0 {
                1
            } else {
                0
            };
            &&& w.write is None ==> items.len() == 0
            &&& w.write matches Some(d) ==> match documents::stored_as(tables, d.id.tablet) {
                None => items.len() == 0,
                Some(t) => {
                    &&& items.len() == 2 + vectors + texts
                    &&& items[0].bytes == d.size && items[1].bytes == d.size
                    &&& items[0].kind == UsageKind::Database && items[1].kind
                        == UsageKind::DatabaseV2
                    &&& items[0].table == t.name@
                    &&& items[0].skip_charge <==> names::is_system_name(t.name@)
                    &&& w.vector_bytes > 0 ==> items[2].kind == (UsageKind::Vector {
                        document_bytes: d.size,
                    }) && items[2].bytes == w.vector_bytes && items[2].table == t.name@ && (
                    items[2].skip_charge <==> names::is_system_name(t.name@))
                    &&& w.text_bytes > 0 ==> items[2 + vectors].kind == UsageKind::Text
                        && items[2 + vectors].bytes == w.text_bytes && items[2 + vectors].table
                        == t.name@ && (items[2 + vectors].skip_charge <==> names::is_system_name(
                        t.name@,
                    ))
                },
            }
        }),
{
}

/// Each write of a commit is charged for, in order, whatever else the commit writes.
pub proof fn commits_are_charged_write_by_write(
    index_writes: Seq<IndexWrite>,
    index_write: IndexWrite,
    writes: Seq<ValidatedDocumentWrite>,
    write: ValidatedDocumentWrite,
    tables: Seq<TableInfo>,
    components: Seq<ComponentEntry>,
    virtual_tables: Seq<VirtualTable>,
)
    ensures
        all_index_charges(Seq::empty(), tables, components, virtual_tables).len() == 0,
        all_index_charges(index_writes.push(index_write), tables, components, virtual_tables)
            == all_index_charges(index_writes, tables, components, virtual_tables) + index_charges(
            index_write,
            tables,
            components,
            virtual_tables,
        ),
        all_document_charges(Seq::empty(), tables, components, virtual_tables).len() == 0,
        all_document_charges(writes.push(write), tables, components, virtual_tables)
            == all_document_charges(writes, tables, components, virtual_tables) + document_charges(
            write,
            tables,
            components,
            virtual_tables,
        ),
{
    assert(index_writes.push(index_write).drop_last() == index_writes);
    assert(writes.push(write).drop_last() == writes);
}

} // verus!
