//! Which subscriptions a committed write invalidates, and who has to know of
//! them.
//!
//! A query result updates when the data it read changes: a committed write has
//! to invalidate every active subscription whose read set it meets, also one
//! whose read set spans partitions. A subscription is registered with each
//! partition that owns a table it reads, and a partition matches the tables of
//! its writes against the interests registered with it.
//!
//! - A subscription whose read set meets a committed write is never left alone.
//! - A subscription may be invalidated without need: its query runs again.
//! - Matching is by whole tables. Matching by ranges or keys may only narrow
//!   this.
use crate::documents;
use crate::documents::{ReadSet, TableInfo, TableMapping};
use crate::metrics;
use crate::metrics::MetricsRecorder;
use crate::names::{TableName, TabletId, WriteSource};
use crate::partition;
use crate::partition::{PartitionId, PartitionMap, Routing};
use crate::table_set;
use crate::table_set::TableSet;
use std::collections::BTreeSet;
use vstd::prelude::*;

verus! {

broadcast use {vstd::std_specs::btree::group_btree_axioms, vstd::laws_cmp::group_laws_cmp};

/// The names of the tables among `tablets`.
pub open spec fn names_read(tablets: Seq<TabletId>, tables: Seq<TableInfo>) -> Set<Seq<char>>
    decreases tablets.len(),
{
    if tablets.len() == 0 {
        Set::empty()
    } else {
        let rest = names_read(tablets.drop_last(), tables);
        match documents::name_of(tables, tablets.last()) {
            Some(name) => rest.insert(name),
            None => rest,
        }
    }
}

/// `table` is coordinated on partition `p`.
pub open spec fn owned_by(table: Seq<char>, p: u32, routing: Routing, source: Option<Seq<char>>) -> bool {
    routing.routed(table, source) == Some(PartitionId(p))
}

/// The partitions that own any of `interest`.
pub open spec fn owners_of(interest: Set<Seq<char>>, routing: Routing, source: Option<Seq<char>>) -> Set<
    u32,
> {
    Set::new(
        |p: u32|
            exists|t: Seq<char>| #[trigger] interest.contains(t) && owned_by(t, p, routing, source),
    )
}

/// The tables that a subscription's read set depends on.
#[derive(Debug)]
pub struct SubscriptionInterest {
    tables: TableSet,
}

impl View for SubscriptionInterest {
    type V = Set<Seq<char>>;

    closed spec fn view(&self) -> Set<Seq<char>> {
        self.tables@
    }
}

impl Default for SubscriptionInterest {
    /// An interest in nothing.
    fn default() -> (r: Self)
        ensures
            r@ == Set::<Seq<char>>::empty(),
    {
        SubscriptionInterest { tables: TableSet::new() }
    }
}

fn visit_tablets(
    names: &mut TableSet,
    seen: Ghost<Seq<TabletId>>,
    tablets: &Vec<TabletId>,
    table_mapping: &TableMapping,
)
    requires
        old(names)@ == names_read(seen@, table_mapping.tables@),
    ensures
        final(names)@ == names_read(seen@ + tablets@, table_mapping.tables@),
{
    let mut i: usize = 0;
    assert(seen@ + tablets@.take(0) =~= seen@);
    while i < tablets.len()
        invariant
            i <= tablets@.len(),
            names@ == names_read(seen@ + tablets@.take(i as int), table_mapping.tables@),
        decreases tablets@.len() - i,
    {
        assert((seen@ + tablets@.take(i + 1)).drop_last() =~= seen@ + tablets@.take(i as int));
        if let Some(name) = table_mapping.tablet_name(tablets[i]) {
            names.insert(name);
        }
        i += 1;
    }
    assert(tablets@.take(i as int) =~= tablets@);
}

impl SubscriptionInterest {
    /// The interest in a given set of tables.
    pub fn from_tables(tables: TableSet) -> (r: Self)
        ensures
            r@ == tables@,
    {
        SubscriptionInterest { tables }
    }

    /// The interest of a query: every table it reads, through a database index
    /// or a search index.
    pub fn from_read_set(reads: &ReadSet, table_mapping: &TableMapping) -> (r: Self)
        ensures
            r@ == names_read(reads.tablets(), table_mapping.tables@),
    {
        let mut tables: TableSet = TableSet::new();
        visit_tablets(&mut tables, Ghost(Seq::empty()), &reads.indexed, table_mapping);
        assert(Seq::<TabletId>::empty() + reads.indexed@ =~= reads.indexed@);
        visit_tablets(&mut tables, Ghost(reads.indexed@), &reads.search, table_mapping);
        SubscriptionInterest { tables }
    }

    /// The tables.
    pub fn tables(&self) -> (r: &TableSet)
        ensures
            r@ == self@,
    {
        &self.tables
    }

    /// Whether the interest is in nothing.
    pub fn is_empty(&self) -> (r: bool)
        ensures
            r == self@.is_empty(),
    {
        self.tables.is_empty()
    }

    /// The partitions that the subscription has to be registered with: those
    /// that own the tables it reads.
    pub fn owning_shards(&self, partition_map: &PartitionMap, write_source: &WriteSource) -> (r: BTreeSet<
        u32,
    >)
        ensures
            r@ == owners_of(self@, partition_map@, write_source@),
    {
        let ghost routes = partition_map@;
        let ghost source = write_source@;
        let tables: Vec<TableName> = self.tables.tables();
        let ghost all = partition::table_texts(tables@);
        let mut r: BTreeSet<u32> = BTreeSet::new();
        let mut i: usize = 0;
        while i < tables.len()
            invariant
                i <= tables@.len(),
                routes == partition_map@,
                source == write_source@,
                all == partition::table_texts(tables@),
                all.to_set() == self@,
                forall|p: u32| #[trigger] r@.contains(p) ==> owners_of(self@, routes, source).contains(p),
                forall|j: int, p: u32|
                    0 <= j < i && #[trigger] owned_by(all[j], p, routes, source) ==> r@.contains(p),
            decreases tables@.len() - i,
        {
            proof {
                assert(all[i as int] == tables@[i as int]@);
                assert(all.to_set().contains(all[i as int]));
            }
            if let Some(owner) = partition::routed_partition_for_table(
                &tables[i],
                partition_map,
                write_source,
            ) {
                assert(self@.contains(all[i as int]) && owned_by(
                    all[i as int],
                    owner.0,
                    routes,
                    source,
                ));
                r.insert(owner.0);
            }
            i += 1;
        }
        proof {
            assert forall|p: u32| owners_of(self@, routes, source).contains(p) implies r@.contains(
                p,
            ) by {
                let t = choose|t: Seq<char>| #[trigger]
                    self@.contains(t) && owned_by(t, p, routes, source);
                assert(all.to_set().contains(t));
                let j = choose|j: int| 0 <= j < all.len() && all[j] == t;
                assert(owned_by(all[j], p, routes, source));
            }
            assert(r@ =~= owners_of(self@, routes, source));
        }
        r
    }

    /// Whether the interest spans partitions, so that writes on any of them have
    /// to invalidate the subscription.
    pub fn is_cross_partition(&self, partition_map: &PartitionMap, write_source: &WriteSource) -> (r: bool)
        ensures
            r == (owners_of(self@, partition_map@, write_source@).len() > 1),
    {
        self.owning_shards(partition_map, write_source).len() > 1
    }

    /// Whether a committed write to `written_tables` has to invalidate the
    /// subscription: whether they have a table in common. Each time it has to is
    /// counted.
    pub fn invalidated_by(&self, metrics: &mut MetricsRecorder, written_tables: &TableSet) -> (r: bool)
        ensures
            r == table_set::share_a_table(self@, written_tables@),
            final(metrics)@ == if r {
                old(metrics)@.push(
                    metrics::counted(
                        "DATABASE_CONSERVATIVE_INVALIDATIONS_TOTAL"@,
                        1,
                        metrics::unlabelled(),
                    ),
                )
            } else {
                old(metrics)@
            },
    {
        let matched: bool = self.tables.meets(written_tables);
        if matched {
            metrics::log_conservative_invalidation(metrics);
        }
        matched
    }

    /// The partitions that own the interest from now on. How many they are, the
    /// fan-out of the registration, is measured.
    pub fn register(
        &self,
        metrics: &mut MetricsRecorder,
        partition_map: &PartitionMap,
        write_source: &WriteSource,
    ) -> (r: BTreeSet<u32>)
        ensures
            r@ == owners_of(self@, partition_map@, write_source@),
            final(metrics)@ == old(metrics)@.push(
                metrics::observed(
                    "DATABASE_INVALIDATION_REGISTRATION_SHARDS_TOTAL"@,
                    r@.len() as int,
                    metrics::unlabelled(),
                ),
            ),
    {
        let shards = self.owning_shards(partition_map, write_source);
        metrics::log_invalidation_registration(metrics, shards.len());
        shards
    }
}

/// Every known table that is read is part of the interest.
proof fn lemma_read_is_named(tablets: Seq<TabletId>, i: int, tables: Seq<TableInfo>)
    requires
        0 <= i < tablets.len(),
    ensures
        documents::name_of(tables, tablets[i]) matches Some(name) ==> names_read(
            tablets,
            tables,
        ).contains(name),
    decreases tablets.len(),
{
    if i < tablets.len() - 1 {
        assert(tablets.drop_last()[i] == tablets[i]);
        lemma_read_is_named(tablets.drop_last(), i, tables);
    }
}

/// A write to a table that a query reads invalidates the query's subscription.
pub proof fn no_invalidation_is_missed(
    tablets: Seq<TabletId>,
    i: int,
    tables: Seq<TableInfo>,
    written: Set<Seq<char>>,
)
    requires
        0 <= i < tablets.len(),
        documents::name_of(tables, tablets[i]) is Some,
        written.contains(documents::name_of(tables, tablets[i])->0),
    ensures
        table_set::share_a_table(names_read(tablets, tables), written),
{
    lemma_read_is_named(tablets, i, tables);
}

/// The partition that commits a write to a table of the interest is one that
/// the subscription is registered with.
pub proof fn writes_meet_registered_interests(
    interest: Set<Seq<char>>,
    written: Set<Seq<char>>,
    table: Seq<char>,
    p: u32,
    routing: Routing,
    source: Option<Seq<char>>,
)
    requires
        interest.contains(table),
        written.contains(table),
        routing.routed(table, source) == Some(PartitionId(p)),
    ensures
        owners_of(interest, routing, source).contains(p),
        table_set::share_a_table(interest, written),
{
    assert(interest.contains(table) && owned_by(table, p, routing, source));
}

/// A larger interest is invalidated by whatever invalidates a smaller one: to
/// over-approximate a read set is safe.
pub proof fn larger_interests_miss_nothing(
    smaller: Set<Seq<char>>,
    larger: Set<Seq<char>>,
    written: Set<Seq<char>>,
)
    requires
        smaller.subset_of(larger),
        table_set::share_a_table(smaller, written),
    ensures
        table_set::share_a_table(larger, written),
{
    let t = choose|t: Seq<char>| #[trigger] smaller.contains(t) && written.contains(t);
    assert(larger.contains(t));
}

/// A subscription is interested in a table exactly where it has read it.
pub proof fn interests_are_what_was_read(tablets: Seq<TabletId>, tables: Seq<TableInfo>, name: Seq<char>)
    ensures
        names_read(tablets, tables).contains(name) <==> exists|i: int|
            0 <= i < tablets.len() && documents::name_of(tables, #[trigger] tablets[i]) == Some(
                name,
            ),
    decreases tablets.len(),
{
    if tablets.len() > 0 {
        let front = tablets.drop_last();
        let n = tablets.len() - 1;
        interests_are_what_was_read(front, tables, name);
        assert(tablets[n] == tablets.last());
        if names_read(front, tables).contains(name) {
            let i = choose|i: int|
                0 <= i < front.len() && documents::name_of(tables, #[trigger] front[i]) == Some(
                    name,
                );
            assert(tablets[i] == front[i]);
        }
        if exists|i: int|
            0 <= i < tablets.len() && documents::name_of(tables, #[trigger] tablets[i]) == Some(
                name,
            ) {
            let i = choose|i: int|
                0 <= i < tablets.len() && documents::name_of(tables, #[trigger] tablets[i]) == Some(
                    name,
                );
            if i < n {
                assert(front[i] == tablets[i]);
            }
        }
    }
}

/// A subscription is registered exactly with the partitions that own a table it is
/// interested in.
pub proof fn interests_are_registered_with_their_owners(
    interest: Set<Seq<char>>,
    routing: Routing,
    source: Option<Seq<char>>,
    p: u32,
)
    ensures
        owners_of(interest, routing, source).contains(p) <==> exists|t: Seq<char>|
            #[trigger] interest.contains(t) && routing.routed(t, source) == Some(PartitionId(p)),
{
    if exists|t: Seq<char>|
        #[trigger] interest.contains(t) && routing.routed(t, source) == Some(PartitionId(p)) {
        let t = choose|t: Seq<char>|
            #[trigger] interest.contains(t) && routing.routed(t, source) == Some(PartitionId(p));
        assert(interest.contains(t) && owned_by(t, p, routing, source));
    }
}

/// A write to none of the tables of a subscription leaves it valid.
pub proof fn other_writes_invalidate_nothing(interest: Set<Seq<char>>, written: Set<Seq<char>>)
    requires
        forall|t: Seq<char>| #[trigger] interest.contains(t) ==> !written.contains(t),
    ensures
        !table_set::share_a_table(interest, written),
{
}

} // verus!
