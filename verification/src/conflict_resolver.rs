//! Where the conflict checks of a transaction belong.
//!
//! Conflict checking can be distributed: one logical transaction order does not
//! need one physical committer. The unit of ownership is the conflict shard,
//! the partition that owns a table. This module maps the read and write sets of
//! a transaction to the shards that have to check them. The checks themselves
//! run on the committers of the owning partitions.
use crate::committer::routing;
use crate::documents;
use crate::documents::{ReadSet, TableInfo, TableMapping};
use crate::metrics;
use crate::metrics::{Measured, MetricsRecorder};
use crate::names::{TabletId, WriteSource};
use crate::ordered;
use crate::partition;
use crate::partition::{PartitionId, PartitionMap, Routing};
use crate::table_set::TableSet;
use crate::text_map;
use crate::two_phase_coordinator;
use std::collections::{BTreeMap, BTreeSet};
use vstd::prelude::*;

verus! {

broadcast use {vstd::std_specs::btree::group_btree_axioms, vstd::laws_cmp::group_laws_cmp};

/// The conflict checks of one transaction that belong to one partition.
#[derive(Debug)]
pub struct ConflictShard {
    /// The tables that the transaction reads and the partition owns. The owner
    /// is the authority for read conflicts on them.
    pub read_tables: TableSet,
    /// How many writes of the transaction go to the partition.
    pub write_count: usize,
}

/// What a shard says.
#[verifier::ext_equal]
pub struct Shard {
    pub reads: Set<Seq<char>>,
    pub writes: usize,
}

impl Shard {
    /// A shard without any checks.
    pub open spec fn idle(self) -> bool {
        self.reads.is_empty() && self.writes == 0
    }
}

impl View for ConflictShard {
    type V = Shard;

    open spec fn view(&self) -> Shard {
        Shard { reads: self.read_tables@, writes: self.write_count }
    }
}

impl Default for ConflictShard {
    /// A shard without any checks.
    fn default() -> (r: Self)
        ensures
            r@ == (Shard { reads: Set::empty(), writes: 0 }),
    {
        ConflictShard { read_tables: TableSet::new(), write_count: 0 }
    }
}

impl ConflictShard {
    /// Whether there is nothing to check.
    pub fn is_empty(&self) -> (r: bool)
        ensures
            r == self@.idle(),
    {
        self.read_tables.is_empty() && self.write_count == 0
    }
}

/// Where the conflict checks of one transaction belong.
#[derive(Debug)]
pub struct ConflictPlan {
    local_partition: PartitionId,
    shards: BTreeMap<u32, ConflictShard>,
}

/// What a plan says.
#[verifier::ext_equal]
pub struct Plan {
    pub local: PartitionId,
    pub shards: Map<u32, Shard>,
}

/// What shards say.
pub open spec fn shards_of(shards: Map<u32, ConflictShard>) -> Map<u32, Shard> {
    shards.map_values(|s: ConflictShard| s@)
}

impl View for ConflictPlan {
    type V = Plan;

    closed spec fn view(&self) -> Plan {
        Plan { local: self.local_partition, shards: shards_of(self.shards@) }
    }
}

/// What is stored as `tablet` is the table `name`, and partition `p` owns it.
pub open spec fn belongs_to(
    tablet: TabletId,
    name: Seq<char>,
    p: u32,
    tables: Seq<TableInfo>,
    routing: Routing,
    source: Option<Seq<char>>,
) -> bool {
    &&& documents::name_of(tables, tablet) == Some(name)
    &&& routing.routed(name, source) == Some(PartitionId(p))
}

/// The tables among `tablets` that partition `p` owns.
pub open spec fn read_on(
    tablets: Seq<TabletId>,
    p: u32,
    tables: Seq<TableInfo>,
    routing: Routing,
    source: Option<Seq<char>>,
) -> Set<Seq<char>> {
    Set::new(
        |name: Seq<char>|
            exists|i: int|
                0 <= i < tablets.len() && belongs_to(
                    #[trigger] tablets[i],
                    name,
                    p,
                    tables,
                    routing,
                    source,
                ),
    )
}

/// How many writes go to partition `p`.
pub open spec fn written_on(writes: Map<u32, Seq<usize>>, p: u32) -> usize {
    if writes.contains_key(p) {
        writes[p].len() as usize
    } else {
        0
    }
}

/// Where the checks of a transaction belong: each partition that owns a table
/// it reads, or that gets a write of it, has a shard with those tables and the
/// number of those writes.
pub open spec fn plan_of(
    tablets: Seq<TabletId>,
    tables: Seq<TableInfo>,
    routing: Routing,
    source: Option<Seq<char>>,
    writes: Map<u32, Seq<usize>>,
) -> Plan {
    Plan {
        local: routing.local,
        shards: Map::new(
            |p: u32|
                !(Shard {
                    reads: read_on(tablets, p, tables, routing, source),
                    writes: written_on(writes, p),
                }).idle(),
            |p: u32|
                Shard {
                    reads: read_on(tablets, p, tables, routing, source),
                    writes: written_on(writes, p),
                },
        ),
    }
}

/// What a partition's shard says; nothing, if it has none.
pub open spec fn shard_at(shards: Map<u32, Shard>, p: u32) -> Shard {
    if shards.contains_key(p) {
        shards[p]
    } else {
        Shard { reads: Set::empty(), writes: 0 }
    }
}

/// `shards` are those of a transaction that reads `tablets` and writes nothing.
spec fn holds_reads(
    shards: Map<u32, Shard>,
    tablets: Seq<TabletId>,
    tables: Seq<TableInfo>,
    routing: Routing,
    source: Option<Seq<char>>,
) -> bool {
    forall|p: u32|
        {
            &&& (#[trigger] shard_at(shards, p)).reads =~= read_on(tablets, p, tables, routing, source)
            &&& shard_at(shards, p).writes == 0
            &&& shards.contains_key(p) ==> !shards[p].idle()
        }
}

proof fn lemma_read_more(
    tablets: Seq<TabletId>,
    tablet: TabletId,
    p: u32,
    tables: Seq<TableInfo>,
    routing: Routing,
    source: Option<Seq<char>>,
)
    ensures
        forall|name: Seq<char>| #[trigger]
            read_on(tablets.push(tablet), p, tables, routing, source).contains(name) == (read_on(
                tablets,
                p,
                tables,
                routing,
                source,
            ).contains(name) || belongs_to(tablet, name, p, tables, routing, source)),
{
    let more = tablets.push(tablet);
    assert forall|name: Seq<char>| #[trigger]
        read_on(more, p, tables, routing, source).contains(name) == (read_on(
            tablets,
            p,
            tables,
            routing,
            source,
        ).contains(name) || belongs_to(tablet, name, p, tables, routing, source)) by {
        if read_on(more, p, tables, routing, source).contains(name) {
            let i = choose|i: int|
                0 <= i < more.len() && belongs_to(#[trigger] more[i], name, p, tables, routing, source);
            if i < tablets.len() {
                assert(belongs_to(tablets[i], name, p, tables, routing, source));
            }
        }
        if read_on(tablets, p, tables, routing, source).contains(name) {
            let i = choose|i: int|
                0 <= i < tablets.len() && belongs_to(
                    #[trigger] tablets[i],
                    name,
                    p,
                    tables,
                    routing,
                    source,
                );
            assert(belongs_to(more[i], name, p, tables, routing, source));
        }
        if belongs_to(tablet, name, p, tables, routing, source) {
            assert(belongs_to(more[tablets.len() as int], name, p, tables, routing, source));
        }
    }
}

/// Takes a partition's shard out of the shards; a new one, if it has none.
fn take_shard(shards: &mut BTreeMap<u32, ConflictShard>, p: u32) -> (r: ConflictShard)
    ensures
        r@ == shard_at(shards_of(old(shards)@), p),
        final(shards)@ == old(shards)@.remove(p),
{
    match shards.remove(&p) {
        Some(shard) => shard,
        None => {
            assert(shards@ =~= old(shards)@.remove(p));
            ConflictShard::default()
        },
    }
}

fn visit_reads(
    shards: &mut BTreeMap<u32, ConflictShard>,
    seen: Ghost<Seq<TabletId>>,
    tablets: &Vec<TabletId>,
    table_mapping: &TableMapping,
    partition_map: &PartitionMap,
    write_source: &WriteSource,
)
    requires
        holds_reads(
            shards_of(old(shards)@),
            seen@,
            table_mapping.tables@,
            partition_map@,
            write_source@,
        ),
    ensures
        holds_reads(
            shards_of(final(shards)@),
            seen@ + tablets@,
            table_mapping.tables@,
            partition_map@,
            write_source@,
        ),
{
    let ghost tables = table_mapping.tables@;
    let ghost routes = partition_map@;
    let ghost source = write_source@;
    let mut i: usize = 0;
    assert(seen@ + tablets@.take(0) =~= seen@);
    while i < tablets.len()
        invariant
            i <= tablets@.len(),
            tables == table_mapping.tables@,
            routes == partition_map@,
            source == write_source@,
            holds_reads(
                shards_of(shards@),
                seen@ + tablets@.take(i as int),
                tables,
                routes,
                source,
            ),
        decreases tablets@.len() - i,
    {
        let ghost before = seen@ + tablets@.take(i as int);
        let ghost after = seen@ + tablets@.take(i + 1);
        let ghost old_shards = shards_of(shards@);
        let tablet: TabletId = tablets[i];
        assert(after =~= before.push(tablet));
        if let Some(name) = table_mapping.tablet_name(tablet) {
            if let Some(owner) = partition::routed_partition_for_table(
                name,
                partition_map,
                write_source,
            ) {
                let mut shard = take_shard(shards, owner.0);
                let ghost had = shard@;
                shard.read_tables.insert(name);
                let ghost has = shard@;
                shards.insert(owner.0, shard);
                proof {
                    let new_shards = shards_of(shards@);
                    assert(new_shards =~= old_shards.insert(owner.0, has));
                    assert forall|p: u32|
                        {
                            &&& (#[trigger] shard_at(new_shards, p)).reads =~= read_on(
                                after,
                                p,
                                tables,
                                routes,
                                source,
                            )
                            &&& shard_at(new_shards, p).writes == 0
                            &&& new_shards.contains_key(p) ==> !new_shards[p].idle()
                        } by {
                        lemma_read_more(before, tablet, p, tables, routes, source);
                        assert(shard_at(old_shards, p).writes == 0);
                        if p == owner.0 {
                            assert(has.reads.contains(name@));
                        }
                    }
                }
            } else {
                proof {
                    assert forall|p: u32| #[trigger]
                        shard_at(shards_of(shards@), p).reads =~= read_on(
                            after,
                            p,
                            tables,
                            routes,
                            source,
                        ) by {
                        lemma_read_more(before, tablet, p, tables, routes, source);
                    }
                }
            }
        } else {
            proof {
                assert forall|p: u32| #[trigger]
                    shard_at(shards_of(shards@), p).reads =~= read_on(
                        after,
                        p,
                        tables,
                        routes,
                        source,
                    ) by {
                    lemma_read_more(before, tablet, p, tables, routes, source);
                }
            }
        }
        i += 1;
    }
    assert(tablets@.take(i as int) =~= tablets@);
}

/// The partitions with a shard for which `wanted` holds.
pub open spec fn partitions_where(shards: Map<u32, Shard>, wanted: spec_fn(u32, Shard) -> bool) -> Set<u32> {
    Set::new(|p: u32| shards.contains_key(p) && wanted(p, shards[p]))
}

/// How much each shard that is not idle has to check.
pub open spec fn loads(partitions: Seq<u32>, shards: Map<u32, Shard>) -> Seq<(PartitionId, usize, usize)>
    decreases partitions.len(),
{
    if partitions.len() == 0 {
        Seq::empty()
    } else {
        let rest = loads(partitions.drop_last(), shards);
        let shard = shards[partitions.last()];
        if shard.idle() {
            rest
        } else {
            rest.push(
                (
                    PartitionId(partitions.last()),
                    text_map::in_order(shard.reads).len() as usize,
                    shard.writes,
                ),
            )
        }
    }
}

impl Plan {
    /// The other partitions that own tables the transaction reads.
    pub open spec fn remote_readers(self) -> Set<u32> {
        partitions_where(
            self.shards,
            |p: u32, s: Shard| p != self.local.0 && !s.reads.is_empty(),
        )
    }

    /// The partitions that get writes.
    pub open spec fn writers(self) -> Set<u32> {
        partitions_where(self.shards, |p: u32, s: Shard| s.writes > 0)
    }

    /// The partitions that have something to check.
    pub open spec fn checkers(self) -> Set<u32> {
        partitions_where(self.shards, |p: u32, s: Shard| !s.idle())
    }

    /// How much each partition has to check, ascending.
    pub open spec fn load(self) -> Seq<(PartitionId, usize, usize)> {
        loads(ordered::ascending_u32(self.shards.dom()), self.shards)
    }

    /// What is measured of the plan.
    pub open spec fn measured(self) -> Seq<Measured> {
        seq![
            metrics::observed(
                "DATABASE_CONFLICT_CHECK_SHARDS_TOTAL"@,
                self.checkers().len() as int,
                metrics::unlabelled(),
            ),
        ] + metrics::load_observations(self.load())
    }
}

impl ConflictPlan {
    /// Plans the conflict checks of a transaction from what it reads and from
    /// the writes that have been routed to each partition.
    pub fn build(
        reads: &ReadSet,
        table_mapping: &TableMapping,
        partition_map: &PartitionMap,
        write_source: &WriteSource,
        write_indexes: &BTreeMap<u32, Vec<usize>>,
    ) -> (r: Self)
        ensures
            r@ == plan_of(
                reads.tablets(),
                table_mapping.tables@,
                partition_map@,
                write_source@,
                two_phase_coordinator::listed(write_indexes@),
            ),
    {
        let ghost writes = two_phase_coordinator::listed(write_indexes@);
        let ghost tables = table_mapping.tables@;
        let ghost routes = partition_map@;
        let ghost source = write_source@;
        let mut shards: BTreeMap<u32, ConflictShard> = BTreeMap::new();
        assert(shards_of(shards@) =~= Map::<u32, Shard>::empty());
        visit_reads(
            &mut shards,
            Ghost(Seq::empty()),
            &reads.indexed,
            table_mapping,
            partition_map,
            write_source,
        );
        assert(Seq::<TabletId>::empty() + reads.indexed@ =~= reads.indexed@);
        visit_reads(
            &mut shards,
            Ghost(reads.indexed@),
            &reads.search,
            table_mapping,
            partition_map,
            write_source,
        );
        let partitions = ordered::keys_u32(write_indexes);
        let mut i: usize = 0;
        while i < partitions.len()
            invariant
                i <= partitions@.len(),
                tables == table_mapping.tables@,
                routes == partition_map@,
                source == write_source@,
                writes == two_phase_coordinator::listed(write_indexes@),
                ordered::sorted_u32(partitions@),
                partitions@.to_set() == write_indexes@.dom(),
                forall|p: u32|
                    {
                        &&& (#[trigger] shard_at(shards_of(shards@), p)).reads =~= read_on(
                            reads.tablets(),
                            p,
                            tables,
                            routes,
                            source,
                        )
                        &&& shards_of(shards@).contains_key(p) ==> !shards_of(shards@)[p].idle()
                    },
                forall|j: int|
                    0 <= j < i ==> shard_at(shards_of(shards@), #[trigger] partitions@[j]).writes
                        == written_on(writes, partitions@[j]),
                forall|p: u32|
                    !partitions@.take(i as int).contains(p) ==> (#[trigger] shard_at(
                        shards_of(shards@),
                        p,
                    )).writes == 0,
            decreases partitions@.len() - i,
        {
            let p: u32 = partitions[i];
            let ghost old_shards = shards_of(shards@);
            proof {
                assert(partitions@.to_set().contains(p));
                assert(!partitions@.take(i as int).contains(p));
                assert(shard_at(old_shards, p).writes == 0);
            }
            if let Some(indexes) = write_indexes.get(&p) {
                let count: usize = indexes.len();
                if count > 0 {
                    let mut shard = take_shard(&mut shards, p);
                    shard.write_count = shard.write_count + count;
                    let ghost has = shard@;
                    shards.insert(p, shard);
                    proof {
                        assert(shards_of(shards@) =~= old_shards.insert(p, has));
                        assert(has.reads == shard_at(old_shards, p).reads);
                    }
                }
            }
            proof {
                let taken = partitions@.take(i as int);
                let more = partitions@.take(i + 1);
                assert(more =~= taken.push(p));
                assert forall|q: u32| !more.contains(q) implies (#[trigger] shard_at(
                    shards_of(shards@),
                    q,
                )).writes == 0 by {
                    assert(more[i as int] == p);
                    assert(q != p);
                    assert forall|k: int| 0 <= k < taken.len() implies taken[k] != q by {
                        assert(more[k] == taken[k]);
                    }
                    assert(shard_at(old_shards, q).writes == 0);
                }
                assert forall|j: int| 0 <= j < i + 1 implies shard_at(
                    shards_of(shards@),
                    #[trigger] partitions@[j],
                ).writes == written_on(writes, partitions@[j]) by {
                    if j < i {
                        assert(partitions@[j] != p);
                        assert(shard_at(old_shards, partitions@[j]).writes == written_on(
                            writes,
                            partitions@[j],
                        ));
                    }
                }
                assert forall|q: u32|
                    {
                        &&& (#[trigger] shard_at(shards_of(shards@), q)).reads =~= read_on(
                            reads.tablets(),
                            q,
                            tables,
                            routes,
                            source,
                        )
                        &&& shards_of(shards@).contains_key(q) ==> !shards_of(shards@)[q].idle()
                    } by {
                    assert(shard_at(old_shards, q).reads =~= read_on(
                        reads.tablets(),
                        q,
                        tables,
                        routes,
                        source,
                    ));
                }
            }
            i += 1;
        }
        proof {
            let plan = plan_of(reads.tablets(), tables, routes, source, writes);
            let s = shards_of(shards@);
            assert(partitions@.take(i as int) =~= partitions@);
            assert forall|p: u32|
                {
                    &&& #[trigger] s.dom().contains(p) == plan.shards.dom().contains(p)
                    &&& s.dom().contains(p) ==> s[p] == plan.shards[p]
                } by {
                let here = shard_at(s, p);
                assert(here.reads =~= read_on(reads.tablets(), p, tables, routes, source));
                if writes.contains_key(p) {
                    assert(partitions@.to_set().contains(p));
                    let j = choose|j: int| 0 <= j < partitions@.len() && partitions@[j] == p;
                    assert(here.writes == written_on(writes, partitions@[j]));
                } else {
                    assert(!partitions@.to_set().contains(p));
                    assert(!partitions@.contains(p)) by {
                        if partitions@.contains(p) {
                            assert(partitions@.to_set().contains(p));
                        }
                    }
                    assert(here.writes == 0);
                }
                assert(here =~= (Shard {
                    reads: read_on(reads.tablets(), p, tables, routes, source),
                    writes: written_on(writes, p),
                }));
            }
            assert(s.dom() =~= plan.shards.dom());
            assert(s =~= plan.shards);
        }
        ConflictPlan { local_partition: partition_map.local_partition(), shards }
    }

    /// Each partition's share of the checks.
    pub fn shards(&self) -> (r: &BTreeMap<u32, ConflictShard>)
        ensures
            shards_of(r@) == self@.shards,
    {
        &self.shards
    }

    /// The partition of this node.
    pub fn local_partition(&self) -> (r: PartitionId)
        ensures
            r == self@.local,
    {
        self.local_partition
    }

    /// The other partitions that own tables the transaction reads: the
    /// authorities for its remote reads.
    pub fn remote_read_partitions(&self) -> (r: BTreeSet<u32>)
        ensures
            r@ == self@.remote_readers(),
    {
        let partitions = ordered::keys_u32(&self.shards);
        let mut r: BTreeSet<u32> = BTreeSet::new();
        let ghost plan = self@;
        let mut i: usize = 0;
        while i < partitions.len()
            invariant
                i <= partitions@.len(),
                plan == self@,
                partitions@.to_set() == self.shards@.dom(),
                forall|p: u32| #[trigger] r@.contains(p) ==> plan.remote_readers().contains(p),
                forall|j: int|
                    0 <= j < i && plan.remote_readers().contains(#[trigger] partitions@[j])
                        ==> r@.contains(partitions@[j]),
            decreases partitions@.len() - i,
        {
            let p: u32 = partitions[i];
            assert(partitions@.to_set().contains(p));
            if let Some(shard) = self.shards.get(&p) {
                assert(plan.shards[p] == shard@);
                if p != self.local_partition.0 && !shard.read_tables.is_empty() {
                    r.insert(p);
                }
            }
            i += 1;
        }
        proof {
            assert forall|p: u32| plan.remote_readers().contains(p) implies r@.contains(p) by {
                assert(partitions@.to_set().contains(p));
                let j = choose|j: int| 0 <= j < partitions@.len() && partitions@[j] == p;
                assert(plan.remote_readers().contains(partitions@[j]));
            }
            assert(r@ =~= plan.remote_readers());
        }
        r
    }

    /// The partitions that get writes of the transaction.
    pub fn write_partitions(&self) -> (r: BTreeSet<u32>)
        ensures
            r@ == self@.writers(),
    {
        let partitions = ordered::keys_u32(&self.shards);
        let mut r: BTreeSet<u32> = BTreeSet::new();
        let ghost plan = self@;
        let mut i: usize = 0;
        while i < partitions.len()
            invariant
                i <= partitions@.len(),
                plan == self@,
                partitions@.to_set() == self.shards@.dom(),
                forall|p: u32| #[trigger] r@.contains(p) ==> plan.writers().contains(p),
                forall|j: int|
                    0 <= j < i && plan.writers().contains(#[trigger] partitions@[j])
                        ==> r@.contains(partitions@[j]),
            decreases partitions@.len() - i,
        {
            let p: u32 = partitions[i];
            assert(partitions@.to_set().contains(p));
            if let Some(shard) = self.shards.get(&p) {
                assert(plan.shards[p] == shard@);
                if shard.write_count > 0 {
                    r.insert(p);
                }
            }
            i += 1;
        }
        proof {
            assert forall|p: u32| plan.writers().contains(p) implies r@.contains(p) by {
                assert(partitions@.to_set().contains(p));
                let j = choose|j: int| 0 <= j < partitions@.len() && partitions@[j] == p;
                assert(plan.writers().contains(partitions@[j]));
            }
            assert(r@ =~= plan.writers());
        }
        r
    }

    /// Whether more than one partition has something to check.
    pub fn is_cross_shard(&self) -> (r: bool)
        ensures
            r == (self@.checkers().len() > 1),
    {
        self.num_shards() > 1
    }

    /// How many partitions have something to check.
    pub fn num_shards(&self) -> (r: usize)
        ensures
            r == self@.checkers().len(),
    {
        let partitions = ordered::keys_u32(&self.shards);
        let ghost plan = self@;
        let ghost mut counted: Set<u32> = Set::empty();
        let mut n: usize = 0;
        let mut i: usize = 0;
        while i < partitions.len()
            invariant
                i <= partitions@.len(),
                n <= i,
                plan == self@,
                ordered::sorted_u32(partitions@),
                partitions@.to_set() == self.shards@.dom(),
                counted.finite(),
                n == counted.len(),
                forall|p: u32| #[trigger]
                    counted.contains(p) ==> plan.checkers().contains(p) && exists|j: int|
                        0 <= j < i && partitions@[j] == p,
                forall|j: int|
                    0 <= j < i && plan.checkers().contains(#[trigger] partitions@[j])
                        ==> counted.contains(partitions@[j]),
            decreases partitions@.len() - i,
        {
            let p: u32 = partitions[i];
            assert(partitions@.to_set().contains(p));
            assert(!counted.contains(p));
            if let Some(shard) = self.shards.get(&p) {
                assert(plan.shards[p] == shard@);
                if !shard.is_empty() {
                    proof {
                        counted = counted.insert(p);
                    }
                    n += 1;
                }
            }
            i += 1;
        }
        proof {
            assert forall|p: u32| plan.checkers().contains(p) implies counted.contains(p) by {
                assert(partitions@.to_set().contains(p));
                let j = choose|j: int| 0 <= j < partitions@.len() && partitions@[j] == p;
                assert(plan.checkers().contains(partitions@[j]));
            }
            assert(counted =~= plan.checkers());
        }
        n
    }

    /// Records over how many partitions the checks are spread, and how much each
    /// has to check.
    pub fn record_metrics(&self, metrics: &mut MetricsRecorder)
        ensures
            final(metrics)@ == old(metrics)@ + self@.measured(),
    {
        let partitions = ordered::keys_u32(&self.shards);
        let ghost plan = self@;
        let mut load: Vec<(PartitionId, usize, usize)> = Vec::new();
        let mut i: usize = 0;
        assert(plan.shards.dom() =~= self.shards@.dom());
        while i < partitions.len()
            invariant
                i <= partitions@.len(),
                plan == self@,
                partitions@.to_set() == self.shards@.dom(),
                load@ == loads(partitions@.take(i as int), plan.shards),
            decreases partitions@.len() - i,
        {
            let p: u32 = partitions[i];
            proof {
                assert(partitions@.to_set().contains(p));
                assert(partitions@.take(i + 1).drop_last() =~= partitions@.take(i as int));
            }
            if let Some(shard) = self.shards.get(&p) {
                assert(plan.shards[p] == shard@);
                if !shard.is_empty() {
                    load.push((PartitionId(p), shard.read_tables.len(), shard.write_count));
                }
            }
            i += 1;
        }
        assert(partitions@.take(i as int) =~= partitions@);
        metrics::log_conflict_plan(metrics, self.num_shards(), &load);
        assert(metrics@ =~= old(metrics)@ + plan.measured());
    }
}

/// The other partitions that own tables the transaction reads: the read
/// conflict shards it has to be consistent with.
pub fn remote_read_conflict_partitions(
    reads: &ReadSet,
    table_mapping: &TableMapping,
    partition_map: &PartitionMap,
    write_source: &WriteSource,
) -> (r: BTreeSet<u32>)
    ensures
        r@ == routing::remote_owners(
            reads.tablets(),
            table_mapping.tables@,
            partition_map@,
            write_source@,
        ),
{
    let none: BTreeMap<u32, Vec<usize>> = BTreeMap::new();
    let plan = ConflictPlan::build(reads, table_mapping, partition_map, write_source, &none);
    proof {
        read_routing_does_not_drift(
            reads.tablets(),
            table_mapping.tables@,
            partition_map@,
            write_source@,
            two_phase_coordinator::listed(none@),
        );
    }
    plan.remote_read_partitions()
}

proof fn lemma_remote_owners(
    tablets: Seq<TabletId>,
    p: u32,
    tables: Seq<TableInfo>,
    routes: Routing,
    source: Option<Seq<char>>,
)
    ensures
        routing::remote_owners(tablets, tables, routes, source).contains(p) == (p != routes.local.0
            && !read_on(tablets, p, tables, routes, source).is_empty()),
    decreases tablets.len(),
{
    let here = read_on(tablets, p, tables, routes, source);
    if tablets.len() == 0 {
        assert(here =~= Set::empty());
    } else {
        let rest = tablets.drop_last();
        let last = tablets.last();
        lemma_remote_owners(rest, p, tables, routes, source);
        lemma_read_more(rest, last, p, tables, routes, source);
        assert(tablets =~= rest.push(last));
        let before = read_on(rest, p, tables, routes, source);
        match documents::name_of(tables, last) {
            Some(name) => {
                if belongs_to(last, name, p, tables, routes, source) {
                    assert(here.contains(name));
                } else {
                    assert(here =~= before);
                }
                if !before.is_empty() {
                    let other = choose|t: Seq<char>| before.contains(t);
                    assert(before.contains(other)) by {
                        if forall|t: Seq<char>| !before.contains(t) {
                            assert(before =~= Set::empty());
                        }
                    }
                    assert(here.contains(other));
                }
            },
            None => {
                assert(here =~= before);
            },
        }
    }
}

/// Whatever a transaction writes, the plan names the same remote reads, and they
/// are the partitions whose frontiers the committer checks the reads against.
pub proof fn read_routing_does_not_drift(
    tablets: Seq<TabletId>,
    tables: Seq<TableInfo>,
    routes: Routing,
    source: Option<Seq<char>>,
    writes: Map<u32, Seq<usize>>,
)
    ensures
        plan_of(tablets, tables, routes, source, writes).remote_readers()
            == routing::remote_owners(tablets, tables, routes, source),
{
    let plan = plan_of(tablets, tables, routes, source, writes);
    assert forall|p: u32|
        plan.remote_readers().contains(p) == routing::remote_owners(
            tablets,
            tables,
            routes,
            source,
        ).contains(p) by {
        lemma_remote_owners(tablets, p, tables, routes, source);
    }
    assert(plan.remote_readers() =~= routing::remote_owners(tablets, tables, routes, source));
}

/// Every table that is read and owned is checked by its owner.
pub proof fn every_owned_read_is_checked(
    tablets: Seq<TabletId>,
    i: int,
    tables: Seq<TableInfo>,
    routes: Routing,
    source: Option<Seq<char>>,
    writes: Map<u32, Seq<usize>>,
)
    requires
        0 <= i < tablets.len(),
    ensures
        documents::name_of(tables, tablets[i]) matches Some(name) ==> (routes.routed(
            name,
            source,
        ) matches Some(p) ==> {
            let plan = plan_of(tablets, tables, routes, source, writes);
            plan.shards.contains_key(p.0) && plan.shards[p.0].reads.contains(name)
        }),
{
    if let Some(name) = documents::name_of(tables, tablets[i]) {
        if let Some(p) = routes.routed(name, source) {
            assert(belongs_to(tablets[i], name, p.0, tables, routes, source));
            assert(read_on(tablets, p.0, tables, routes, source).contains(name));
        }
    }
}

/// Each partition that gets writes has a shard that counts all of them.
pub proof fn every_write_is_counted(
    tablets: Seq<TabletId>,
    tables: Seq<TableInfo>,
    routes: Routing,
    source: Option<Seq<char>>,
    writes: Map<u32, Seq<usize>>,
    p: u32,
)
    requires
        writes.contains_key(p),
        0 < writes[p].len() <= usize::MAX,
    ensures
        plan_of(tablets, tables, routes, source, writes).shards.contains_key(p),
        plan_of(tablets, tables, routes, source, writes).shards[p].writes
            == writes[p].len(),
{
}

/// Every shard of a plan has something to check.
pub proof fn planned_shards_are_busy(
    tablets: Seq<TabletId>,
    tables: Seq<TableInfo>,
    routes: Routing,
    source: Option<Seq<char>>,
    writes: Map<u32, Seq<usize>>,
)
    ensures
        plan_of(tablets, tables, routes, source, writes).checkers() == plan_of(
            tablets,
            tables,
            routes,
            source,
            writes,
        ).shards.dom(),
{
    let plan = plan_of(tablets, tables, routes, source, writes);
    assert(plan.checkers() =~= plan.shards.dom());
}

/// A partition checks exactly the tables that are read and that are its own, and as
/// many writes as are listed for it; one with neither checks nothing.
pub proof fn partitions_check_what_is_theirs(
    tablets: Seq<TabletId>,
    tables: Seq<TableInfo>,
    routes: Routing,
    source: Option<Seq<char>>,
    writes: Map<u32, Seq<usize>>,
    p: u32,
    name: Seq<char>,
)
    requires
        writes.contains_key(p) ==> writes[p].len() <= usize::MAX,
    ensures
        ({
            let plan = plan_of(tablets, tables, routes, source, writes);
            &&& plan.local == routes.local
            &&& plan.shards.contains_key(p) ==> {
                &&& plan.shards[p].reads.contains(name) <==> (routes.routed(name, source) == Some(
                    PartitionId(p),
                ) && exists|i: int|
                    0 <= i < tablets.len() && documents::name_of(tables, #[trigger] tablets[i])
                        == Some(name))
                &&& plan.shards[p].writes == if writes.contains_key(p) {
                    writes[p].len()
                } else {
                    0
                }
                &&& plan.shards[p].writes > 0 || exists|n: Seq<char>|
                    #[trigger] plan.shards[p].reads.contains(n)
            }
            &&& writes.contains_key(p) && writes[p].len() > 0 ==> plan.shards.contains_key(p)
        }),
{
    let plan = plan_of(tablets, tables, routes, source, writes);
    let reads = read_on(tablets, p, tables, routes, source);
    if plan.shards.contains_key(p) {
        if routes.routed(name, source) == Some(PartitionId(p)) && exists|i: int|
            0 <= i < tablets.len() && documents::name_of(tables, #[trigger] tablets[i]) == Some(
                name,
            ) {
            let i = choose|i: int|
                0 <= i < tablets.len() && documents::name_of(tables, #[trigger] tablets[i]) == Some(
                    name,
                );
            assert(belongs_to(tablets[i], name, p, tables, routes, source));
        }
        if plan.shards[p].writes == 0 {
            assert(!reads.is_empty());
            assert(exists|n: Seq<char>| #[trigger] reads.contains(n)) by {
                if forall|n: Seq<char>| !#[trigger] reads.contains(n) {
                    assert(reads =~= Set::<Seq<char>>::empty());
                }
            }
        }
    }
}

/// The partitions whose reads are remote are those other than the node's own that
/// read anything; those that write are those with writes; and a partition checks
/// where it does either.
pub proof fn plans_know_their_partitions(plan: Plan, p: u32)
    ensures
        plan.remote_readers().contains(p) <==> plan.shards.contains_key(p) && p != plan.local.0
            && exists|n: Seq<char>| #[trigger] plan.shards[p].reads.contains(n),
        plan.writers().contains(p) <==> plan.shards.contains_key(p) && plan.shards[p].writes > 0,
        plan.checkers().contains(p) <==> plan.shards.contains_key(p) && (plan.shards[p].writes > 0
            || exists|n: Seq<char>| #[trigger] plan.shards[p].reads.contains(n)),
{
    let reads = plan.shards[p].reads;
    assert(reads.is_empty() <==> forall|n: Seq<char>| !#[trigger] reads.contains(n)) by {
        if forall|n: Seq<char>| !#[trigger] reads.contains(n) {
            assert(reads =~= Set::<Seq<char>>::empty());
        }
    }
}

/// The load of a plan lists each partition that checks anything, in order, with how
/// much it reads and writes.
pub proof fn loads_are_those_of_the_shards(partitions: Seq<u32>, p: u32, shards: Map<u32, Shard>)
    ensures
        loads(Seq::empty(), shards).len() == 0,
        shards[p].writes == 0 && shards[p].reads =~= Set::<Seq<char>>::empty() ==> loads(
            partitions.push(p),
            shards,
        ) == loads(partitions, shards),
        shards[p].writes > 0 || (exists|n: Seq<char>| #[trigger] shards[p].reads.contains(n))
            ==> loads(partitions.push(p), shards) == loads(partitions, shards).push(
            (
                PartitionId(p),
                text_map::in_order(shards[p].reads).len() as usize,
                shards[p].writes,
            ),
        ),
{
    assert(partitions.push(p).drop_last() == partitions);
    if exists|n: Seq<char>| #[trigger] shards[p].reads.contains(n) {
        let n = choose|n: Seq<char>| #[trigger] shards[p].reads.contains(n);
        assert(!shards[p].reads.is_empty());
    }
}

} // verus!
