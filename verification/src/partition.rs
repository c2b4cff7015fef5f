//! Partition assignment for table-level write scaling.
//!
//! Maps tables to partitions (nodes). Each node owns a set of tables and is the
//! single committer for those tables, preserving the single-writer guarantee
//! within each partition.
//!
//! A [`PartitionMap`] assigns each table name to a [`PartitionId`]. It is built
//! from versioned [`PlacementMetadata`], shared across all nodes: all nodes
//! must agree on the mapping. Tables not explicitly assigned go to partition 0,
//! and system tables (`_tables`, `_index`, `_modules`, and so on) are always on
//! partition 0.
use crate::names;
use crate::names::{TableName, WriteSource};
use crate::ordered;
use crate::text;
use crate::text_map;
use crate::text_map::TextMap;
use std::cmp::Ordering;
use std::collections::BTreeMap;
use vstd::prelude::*;
use vstd::std_specs::cmp::PartialOrdSpec;
use vstd::string::*;

verus! {

broadcast use {vstd::std_specs::btree::group_btree_axioms, vstd::laws_cmp::group_laws_cmp};

/// The number of the default partition, which owns system tables and any
/// unassigned user tables.
pub const DEFAULT_PARTITION: u32 = 0;

/// The number of the static, startup-configured placement version.
pub const STATIC_VERSION: u64 = 0;

/// Identifies a partition (node) in the cluster.
/// Partition 0 is the default and owns all system tables.
#[derive(Clone, Copy, Debug, PartialEq, Eq, PartialOrd, Ord, Hash, Structural)]
pub struct PartitionId(pub u32);

impl PartitionId {
    /// The partition as it is printed.
    pub open spec fn text(self) -> Seq<char> {
        "partition-"@ + text::dec(self.0 as nat)
    }

    /// Prints the partition.
    pub fn to_text(self) -> (r: String)
        ensures
            r@ == self.text(),
    {
        let mut s: String = String::new();
        self.push_to(&mut s);
        assert(s@ =~= self.text());
        s
    }

    /// Appends the partition as it is printed.
    pub fn push_to(self, s: &mut String)
        ensures
            final(s)@ == old(s)@ + self.text(),
    {
        let ghost start = s@;
        s.append("partition-");
        text::push_dec(s, self.0 as u64);
        assert(s@ =~= start + self.text());
    }
}

/// Monotonically identifies the placement metadata version used for routing.
///
/// Version 0 is the static, startup-configured map. Dynamic placement updates
/// must bump this value whenever ownership changes.
#[derive(Clone, Copy, Debug, PartialEq, Eq, Ord, Hash, Structural)]
pub struct PlacementVersion(pub u64);

impl PartialOrd for PlacementVersion {
    fn partial_cmp(&self, other: &Self) -> (r: Option<Ordering>) {
        if self.0 < other.0 {
            Some(Ordering::Less)
        } else if self.0 == other.0 {
            Some(Ordering::Equal)
        } else {
            Some(Ordering::Greater)
        }
    }
}

impl vstd::std_specs::cmp::PartialOrdSpecImpl for PlacementVersion {
    open spec fn obeys_partial_cmp_spec() -> bool {
        true
    }

    /// Versions are ordered as their numbers are.
    open spec fn partial_cmp_spec(&self, other: &Self) -> Option<Ordering> {
        if self.0 < other.0 {
            Some(Ordering::Less)
        } else if self.0 == other.0 {
            Some(Ordering::Equal)
        } else {
            Some(Ordering::Greater)
        }
    }
}

/// Versions are ordered as their numbers are, and two with the same number are the
/// same.
pub proof fn versions_are_ordered_as_their_numbers(a: u64, b: u64)
    ensures
        a < b <==> PlacementVersion(a).partial_cmp_spec(&PlacementVersion(b)) == Some(
            Ordering::Less,
        ),
        a > b <==> PlacementVersion(a).partial_cmp_spec(&PlacementVersion(b)) == Some(
            Ordering::Greater,
        ),
        a == b <==> PlacementVersion(a).partial_cmp_spec(&PlacementVersion(b)) == Some(
            Ordering::Equal,
        ),
        a == b <==> PlacementVersion(a) == PlacementVersion(b),
{
}

impl Default for PlacementVersion {
    /// The static version.
    fn default() -> (r: Self)
        ensures
            r == PlacementVersion(0),
    {
        PlacementVersion(0)
    }
}

impl PlacementVersion {
    pub fn new(version: u64) -> (r: Self)
        ensures
            r.0 == version,
    {
        PlacementVersion(version)
    }

    /// The version as it is printed.
    pub open spec fn text(self) -> Seq<char> {
        "placement-version-"@ + text::dec(self.0 as nat)
    }

    /// Prints the version.
    pub fn to_text(self) -> (r: String)
        ensures
            r@ == self.text(),
    {
        let mut s: String = String::new();
        self.push_to(&mut s);
        assert(s@ =~= self.text());
        s
    }

    /// Appends the version as it is printed.
    pub fn push_to(self, s: &mut String)
        ensures
            final(s)@ == old(s)@ + self.text(),
    {
        let ghost start = s@;
        s.append("placement-version-");
        text::push_dec(s, self.0);
        assert(s@ =~= start + self.text());
    }
}

impl From<PlacementVersion> for u64 {
    fn from(version: PlacementVersion) -> (r: Self) {
        version.0
    }
}

impl vstd::std_specs::convert::FromSpecImpl<PlacementVersion> for u64 {
    open spec fn obeys_from_spec() -> bool {
        true
    }

    open spec fn from_spec(version: PlacementVersion) -> u64 {
        version.0
    }
}

impl From<u64> for PlacementVersion {
    fn from(version: u64) -> (r: Self) {
        PlacementVersion(version)
    }
}

impl vstd::std_specs::convert::FromSpecImpl<u64> for PlacementVersion {
    open spec fn obeys_from_spec() -> bool {
        true
    }

    open spec fn from_spec(version: u64) -> PlacementVersion {
        PlacementVersion(version)
    }
}

/// Where a placement map was loaded from.
///
/// The static source is the process's startup configuration. The replicated
/// source is placement metadata owned by the cluster.
#[derive(Clone, Copy, Debug, PartialEq, Eq, Structural)]
pub enum PlacementMetadataSource {
    StaticConfig,
    Replicated,
}

/// Logical object owned by a partition.
///
/// Only whole tables are routed today. Keeping the target explicit prevents the
/// control-plane model from baking in table-only ownership.
#[derive(Debug)]
pub enum PlacementTarget {
    Table(TableName),
}

/// One ownership rule in the placement metadata.
#[derive(Debug)]
pub struct PlacementRule {
    pub target: PlacementTarget,
    pub owner: PartitionId,
}

/// Static placement inputs from process configuration.
pub struct StaticPlacementConfig<'a> {
    pub table_assignments: &'a str,
    pub num_partitions: u32,
    pub placement_version: PlacementVersion,
}

/// Why placement metadata was refused.
#[derive(Clone, Copy, Debug, PartialEq, Eq, Structural)]
pub enum PlacementError {
    /// The local partition is not one of the partitions.
    LocalOutside { local: PartitionId, num_partitions: u32 },
    /// The metadata is older than what is in use.
    Downgrade { current: PlacementVersion, requested: PlacementVersion },
    /// The metadata to publish is not newer than what is published.
    NotNewer { current: PlacementVersion, requested: PlacementVersion },
    /// The same, of metadata that is kept in memory.
    NotNewerInMemory { current: PlacementVersion, requested: PlacementVersion },
    /// There is no placement to refresh on a node that owns everything.
    SinglePartition,
}

impl PlacementError {
    /// What the error says.
    pub open spec fn text(self) -> Seq<char> {
        match self {
            PlacementError::LocalOutside { local, num_partitions } => "Local partition "@
                + local.text() + " is outside placement metadata with "@ + text::dec(
                num_partitions as nat,
            ) + " partitions"@,
            PlacementError::Downgrade { current, requested } =>
                "Refusing to refresh placement metadata from "@ + current.text() + " down to "@
                + requested.text(),
            PlacementError::NotNewer { current, requested } =>
                "Refusing to publish placement version "@ + requested.text() + " over current "@
                + current.text() + "; the new version must be strictly greater"@,
            PlacementError::NotNewerInMemory { current, requested } =>
                "Refusing to publish placement version "@ + requested.text() + " over current "@
                + current.text(),
            PlacementError::SinglePartition =>
                "Cannot refresh placement metadata in single-partition mode"@,
        }
    }

    /// What the error says.
    pub fn message(&self) -> (r: String)
        ensures
            r@ == self.text(),
    {
        let mut s: String = String::new();
        match self {
            PlacementError::LocalOutside { local, num_partitions } => {
                s.append("Local partition ");
                local.push_to(&mut s);
                s.append(" is outside placement metadata with ");
                text::push_dec(&mut s, *num_partitions as u64);
                s.append(" partitions");
            },
            PlacementError::Downgrade { current, requested } => {
                s.append("Refusing to refresh placement metadata from ");
                current.push_to(&mut s);
                s.append(" down to ");
                requested.push_to(&mut s);
            },
            PlacementError::NotNewer { current, requested } => {
                s.append("Refusing to publish placement version ");
                requested.push_to(&mut s);
                s.append(" over current ");
                current.push_to(&mut s);
                s.append("; the new version must be strictly greater");
            },
            PlacementError::NotNewerInMemory { current, requested } => {
                s.append("Refusing to publish placement version ");
                requested.push_to(&mut s);
                s.append(" over current ");
                current.push_to(&mut s);
            },
            PlacementError::SinglePartition => {
                s.append("Cannot refresh placement metadata in single-partition mode");
            },
        }
        assert(s@ =~= self.text());
        s
    }
}

/// What placement metadata says.
#[verifier::ext_equal]
pub struct Placement {
    pub source: PlacementMetadataSource,
    pub version: PlacementVersion,
    pub num_partitions: u32,
    /// Table to owner.
    pub rules: Map<Seq<char>, PartitionId>,
    /// Partition to peer addresses.
    pub members: Map<u32, Seq<Seq<char>>>,
}

/// What a partition map says.
#[verifier::ext_equal]
pub struct Routing {
    pub assignments: Map<Seq<char>, PartitionId>,
    pub local: PartitionId,
    pub num_partitions: u32,
    pub version: PlacementVersion,
}

impl Routing {
    /// The partition that owns `table`.
    pub open spec fn owner(self, table: Seq<char>) -> PartitionId {
        if names::is_system_name(table) || !self.assignments.contains_key(table) {
            PartitionId(0)
        } else {
            self.assignments[table]
        }
    }

    /// The partition `table` is coordinated on for writes from `source`.
    pub open spec fn routed(self, table: Seq<char>, source: Option<Seq<char>>) -> Option<
        PartitionId,
    > {
        if !names::is_system_name(table) || is_deploy(source) {
            Some(self.owner(table))
        } else {
            None
        }
    }
}

/// `source` is one of the two deploy operations.
pub open spec fn is_deploy(source: Option<Seq<char>>) -> bool {
    source == Some("start_push"@) || source == Some("finish_push"@)
}

impl Placement {
    /// The routing state of the node `local`.
    pub open spec fn routing(self, local: PartitionId) -> Routing {
        Routing {
            assignments: self.rules,
            local,
            num_partitions: self.num_partitions,
            version: self.version,
        }
    }
}

/// The rule written in one `table=partition` pair.
pub open spec fn rule_in(pair: Seq<char>) -> Option<(Seq<char>, PartitionId)> {
    match text::cut(text::trimmed(pair), '=') {
        Some((table, partition)) => {
            let t = text::trimmed(table);
            match text::number(text::trimmed(partition), u32::MAX as nat) {
                Some(n) => if names::is_table_name(t) {
                    Some((t, PartitionId(n as u32)))
                } else {
                    None
                },
                None => None,
            }
        },
        None => None,
    }
}

/// The rules written in `pairs`, a later one in place of an earlier one;
/// what is no rule is passed over.
pub open spec fn rules_in(pairs: Seq<Seq<char>>) -> Map<Seq<char>, PartitionId>
    decreases pairs.len(),
{
    if pairs.len() == 0 {
        Map::empty()
    } else {
        let m = rules_in(pairs.drop_last());
        match rule_in(pairs.last()) {
            Some((table, owner)) => m.insert(table, owner),
            None => m,
        }
    }
}

/// The rules of a list of assignments, a later one in place of an earlier one.
pub open spec fn assigned(q: Seq<(TableName, PartitionId)>) -> Map<Seq<char>, PartitionId>
    decreases q.len(),
{
    if q.len() == 0 {
        Map::empty()
    } else {
        assigned(q.drop_last()).insert(q.last().0@, q.last().1)
    }
}

/// The texts of a list of strings.
pub open spec fn texts(q: Seq<String>) -> Seq<Seq<char>> {
    q.map_values(|s: String| s@)
}

/// The usable addresses: trimmed, without the blank ones.
pub open spec fn usable(addresses: Seq<Seq<char>>) -> Seq<Seq<char>>
    decreases addresses.len(),
{
    if addresses.len() == 0 {
        seq![]
    } else {
        let u = usable(addresses.drop_last());
        let a = text::trimmed(addresses.last());
        if a.len() == 0 {
            u
        } else {
            u.push(a)
        }
    }
}

/// A trimmed text has nothing left to trim.
proof fn lemma_trimmed_idempotent(s: Seq<char>)
    ensures
        text::trimmed(text::trimmed(s)) == text::trimmed(s),
{
    text::lemma_trimmed_ends(s);
}

/// Usable addresses are all usable.
pub proof fn lemma_usable_idempotent(addresses: Seq<Seq<char>>)
    ensures
        usable(usable(addresses)) == usable(addresses),
    decreases addresses.len(),
{
    if addresses.len() > 0 {
        lemma_usable_idempotent(addresses.drop_last());
        let u = usable(addresses.drop_last());
        let a = text::trimmed(addresses.last());
        if a.len() > 0 {
            assert(u.push(a).drop_last() =~= u);
            lemma_trimmed_idempotent(addresses.last());
        }
    }
}

/// Membership without blank addresses and without members that have none.
pub open spec fn usable_members(members: Map<u32, Seq<Seq<char>>>) -> Map<u32, Seq<Seq<char>>> {
    Map::new(
        |p: u32| members.contains_key(p) && usable(members[p]).len() > 0,
        |p: u32| usable(members[p]),
    )
}

/// What a membership table says.
pub open spec fn members_of(m: Map<u32, Vec<String>>) -> Map<u32, Seq<Seq<char>>> {
    m.map_values(|v: Vec<String>| texts(v@))
}

/// Versioned placement metadata used to build runtime routing state.
///
/// In addition to table ownership, the record carries cluster membership: the
/// peer addresses for each partition. A new partition is introduced by
/// publishing a new version of the record.
#[derive(Debug)]
pub struct PlacementMetadata {
    source: PlacementMetadataSource,
    version: PlacementVersion,
    num_partitions: u32,
    rules: TextMap<PartitionId>,
    /// Partition to peer addresses. Empty when membership is supplied out of
    /// band by the process's environment.
    members: BTreeMap<u32, Vec<String>>,
}

impl View for PlacementMetadata {
    type V = Placement;

    closed spec fn view(&self) -> Placement {
        Placement {
            source: self.source,
            version: self.version,
            num_partitions: self.num_partitions,
            rules: self.rules@,
            members: members_of(self.members@),
        }
    }
}

/// A copy of a table-to-partition map.
fn copy_rules(rules: &TextMap<PartitionId>) -> (r: TextMap<PartitionId>)
    ensures
        r@ == rules@,
{
    let mut r: TextMap<PartitionId> = TextMap::new();
    let n: usize = rules.len();
    let mut i: usize = 0;
    let ghost keys = text_map::in_order(rules@.dom());
    proof {
        rules.lemma_finite();
        text_map::lemma_in_order(rules@.dom());
    }
    while i < n
        invariant
            i <= n,
            n == keys.len(),
            keys == text_map::in_order(rules@.dom()),
            keys.to_set() == rules@.dom(),
            forall|k: Seq<char>| #[trigger]
                r@.contains_key(k) ==> rules@.contains_key(k) && r@[k] == rules@[k],
            forall|j: int| 0 <= j < i ==> r@.contains_key(#[trigger] keys[j]),
        decreases n - i,
    {
        let key: &String = rules.key_at(i);
        let owner: PartitionId = *rules.value_at(i);
        r.insert(key.as_str().to_owned(), owner);
        i = i + 1;
    }
    proof {
        assert forall|k: Seq<char>| rules@.contains_key(k) implies r@.contains_key(k) by {
            assert(keys.to_set().contains(k));
            let j = choose|j: int| 0 <= j < keys.len() && keys[j] == k;
            assert(r@.contains_key(keys[j]));
        }
        assert(r@ =~= rules@);
    }
    r
}

/// A copy of a list of strings.
pub fn copy_strings(v: &Vec<String>) -> (r: Vec<String>)
    ensures
        texts(r@) == texts(v@),
{
    let mut r: Vec<String> = Vec::new();
    let mut i: usize = 0;
    while i < v.len()
        invariant
            i <= v.len(),
            r@.len() == i,
            forall|j: int| 0 <= j < i ==> (#[trigger] r@[j])@ == v@[j]@,
        decreases v.len() - i,
    {
        r.push(v[i].as_str().to_owned());
        i = i + 1;
    }
    assert(texts(r@) =~= texts(v@));
    r
}

/// The usable addresses of a list.
fn usable_addresses(v: &Vec<String>) -> (r: Vec<String>)
    ensures
        texts(r@) == usable(texts(v@)),
{
    let mut r: Vec<String> = Vec::new();
    let mut i: usize = 0;
    let ghost all = texts(v@);
    assert(all.take(0) =~= seq![]);
    assert(texts(r@) =~= seq![]);
    while i < v.len()
        invariant
            i <= v.len(),
            all == texts(v@),
            texts(r@) == usable(all.take(i as int)),
        decreases v.len() - i,
    {
        let a: String = text::trim(v[i].as_str());
        proof {
            let longer = all.take(i + 1);
            assert(longer.drop_last() =~= all.take(i as int));
            assert(longer.last() == v@[i as int]@);
        }
        let blank: bool = a.as_str().unicode_len() == 0;
        if !blank {
            let ghost before = r@;
            let ghost t = a@;
            r.push(a);
            assert(texts(r@) =~= texts(before).push(t));
        }
        i = i + 1;
    }
    assert(all.take(i as int) =~= all);
    r
}

/// Every key is a table name.
pub open spec fn names_tables(m: Map<Seq<char>, PartitionId>) -> bool {
    forall|t: Seq<char>| #[trigger] m.contains_key(t) ==> names::is_table_name(t)
}

impl PlacementMetadata {
    #[verifier::type_invariant]
    spec fn is_valid(self) -> bool {
        names_tables(self.rules@)
    }

    /// Reads `table=partition` pairs, separated by commas. Pairs that are not
    /// well formed are passed over.
    pub fn from_static_config(config: StaticPlacementConfig<'_>) -> (r: Self)
        ensures
            r@ == (Placement {
                source: PlacementMetadataSource::StaticConfig,
                version: config.placement_version,
                num_partitions: config.num_partitions,
                rules: rules_in(text::pieces(config.table_assignments@, ',')),
                members: Map::empty(),
            }),
    {
        let mut rules: TextMap<PartitionId> = TextMap::new();
        let pairs: Vec<String> = text::split(config.table_assignments, ',');
        let ghost all = text::pieces(config.table_assignments@, ',');
        let mut i: usize = 0;
        assert(all.take(0) =~= seq![]);
        while i < pairs.len()
            invariant
                i <= pairs.len(),
                pairs@.len() == all.len(),
                forall|j: int| 0 <= j < pairs@.len() ==> (#[trigger] pairs@[j])@ == all[j],
                rules@ == rules_in(all.take(i as int)),
                names_tables(rules@),
            decreases pairs.len() - i,
        {
            proof {
                let longer = all.take(i + 1);
                assert(longer.drop_last() =~= all.take(i as int));
                assert(longer.last() == pairs@[i as int]@);
            }
            let pair: String = text::trim(pairs[i].as_str());
            match text::split_once(pair.as_str(), '=') {
                Some((table, partition)) => {
                    let table: String = text::trim(table.as_str());
                    let partition: String = text::trim(partition.as_str());
                    match text::parse_number(partition.as_str(), u32::MAX as u64) {
                        Some(n) => {
                            if TableName::parse(table.as_str()).is_some() {
                                rules.insert(table, PartitionId(n as u32));
                            }
                        },
                        None => {},
                    }
                },
                None => {},
            }
            i = i + 1;
        }
        assert(all.take(i as int) =~= all);
        let r = PlacementMetadata {
            source: PlacementMetadataSource::StaticConfig,
            version: config.placement_version,
            num_partitions: config.num_partitions,
            rules,
            members: BTreeMap::new(),
        };
        assert(r@.members =~= Map::empty());
        r
    }

    pub fn from_partition_map(
        partition_map: &PartitionMap,
        source: PlacementMetadataSource,
    ) -> (r: Self)
        ensures
            r@ == (Placement {
                source,
                version: partition_map@.version,
                num_partitions: partition_map@.num_partitions,
                rules: partition_map@.assignments,
                members: Map::empty(),
            }),
    {
        proof {
            use_type_invariant(partition_map);
        }
        let r = PlacementMetadata {
            source,
            version: partition_map.placement_version,
            num_partitions: partition_map.num_partitions,
            rules: copy_rules(&partition_map.assignments),
            members: BTreeMap::new(),
        };
        assert(r@.members =~= Map::empty());
        r
    }

    pub fn from_table_assignments(
        source: PlacementMetadataSource,
        version: PlacementVersion,
        num_partitions: u32,
        assignments: Vec<(TableName, PartitionId)>,
    ) -> (r: Self)
        ensures
            r@ == (Placement {
                source,
                version,
                num_partitions,
                rules: assigned(assignments@),
                members: Map::empty(),
            }),
    {
        let mut rules: TextMap<PartitionId> = TextMap::new();
        let mut i: usize = 0;
        assert(assignments@.take(0) =~= seq![]);
        while i < assignments.len()
            invariant
                i <= assignments.len(),
                rules@ == assigned(assignments@.take(i as int)),
                names_tables(rules@),
            decreases assignments.len() - i,
        {
            proof {
                assert(assignments@.take(i + 1).drop_last() =~= assignments@.take(i as int));
            }
            assignments[i].0.check();
            rules.insert(assignments[i].0.as_str().to_owned(), assignments[i].1);
            i = i + 1;
        }
        assert(assignments@.take(i as int) =~= assignments@);
        let r = PlacementMetadata {
            source,
            version,
            num_partitions,
            rules,
            members: BTreeMap::new(),
        };
        assert(r@.members =~= Map::empty());
        r
    }

    /// Attaches cluster membership (partition to peer addresses) to the record.
    ///
    /// Blank addresses are dropped and partitions with no usable address are
    /// omitted, so a half-filled environment string cannot register an
    /// unroutable member.
    pub fn with_members(self, members: BTreeMap<u32, Vec<String>>) -> (r: Self)
        ensures
            r@ == (Placement { members: usable_members(members_of(members@)), ..self@ }),
    {
        proof {
            use_type_invariant(&self);
        }
        let keys: Vec<u32> = ordered::keys_u32(&members);
        let mut kept: BTreeMap<u32, Vec<String>> = BTreeMap::new();
        let mut i: usize = 0;
        while i < keys.len()
            invariant
                i <= keys.len(),
                keys@.to_set() == members@.dom(),
                ordered::sorted_u32(keys@),
                forall|p: u32| #[trigger]
                    kept@.contains_key(p) ==> members@.contains_key(p) && texts(kept@[p]@)
                        == usable(texts(members@[p]@)) && texts(kept@[p]@).len() > 0,
                forall|j: int|
                    0 <= j < i && usable(texts(members@[#[trigger] keys@[j]]@)).len() > 0
                        ==> kept@.contains_key(keys@[j]),
            decreases keys.len() - i,
        {
            let p: u32 = keys[i];
            assert(keys@.to_set().contains(p));
            match members.get(&p) {
                Some(addresses) => {
                    let u: Vec<String> = usable_addresses(addresses);
                    assert(texts(u@).len() == u@.len());
                    if u.len() > 0 {
                        kept.insert(p, u);
                    }
                },
                None => {},
            }
            i = i + 1;
        }
        let ghost want = usable_members(members_of(members@));
        let r = PlacementMetadata { members: kept, ..self };
        proof {
            assert forall|p: u32| want.contains_key(p) implies kept@.contains_key(p) by {
                assert(keys@.to_set().contains(p));
                let j = choose|j: int| 0 <= j < keys@.len() && keys@[j] == p;
                assert(usable(texts(members@[keys@[j]]@)).len() > 0);
            }
            assert(r@.members =~= want);
        }
        r
    }

    pub fn source(&self) -> (r: PlacementMetadataSource)
        ensures
            r == self@.source,
    {
        self.source
    }

    /// Cluster membership: partition to peer addresses.
    pub fn members(&self) -> (r: &BTreeMap<u32, Vec<String>>)
        ensures
            members_of(r@) == self@.members,
    {
        &self.members
    }

    pub fn version(&self) -> (r: PlacementVersion)
        ensures
            r == self@.version,
    {
        self.version
    }

    pub fn num_partitions(&self) -> (r: u32)
        ensures
            r == self@.num_partitions,
    {
        self.num_partitions
    }

    /// The ownership rules, tables ascending.
    pub fn rules(&self) -> (r: Vec<PlacementRule>)
        ensures
            r@.len() == text_map::in_order(self@.rules.dom()).len(),
            forall|i: int|
                0 <= i < r@.len() ==> (#[trigger] r@[i]).table() == text_map::in_order(
                    self@.rules.dom(),
                )[i] && r@[i].owner == self@.rules[text_map::in_order(self@.rules.dom())[i]],
    {
        proof {
            use_type_invariant(self);
        }
        let mut r: Vec<PlacementRule> = Vec::new();
        let n: usize = self.rules.len();
        let mut i: usize = 0;
        while i < n
            invariant
                i <= n,
                n == text_map::in_order(self.rules@.dom()).len(),
                names_tables(self.rules@),
                r@.len() == i,
                forall|j: int|
                    0 <= j < i ==> (#[trigger] r@[j]).table() == text_map::in_order(
                        self.rules@.dom(),
                    )[j] && r@[j].owner == self.rules@[text_map::in_order(self.rules@.dom())[j]],
            decreases n - i,
        {
            let owner: PartitionId = *self.rules.value_at(i);
            match TableName::parse(self.rules.key_at(i).as_str()) {
                Some(table) => {
                    r.push(PlacementRule { target: PlacementTarget::Table(table), owner });
                },
                None => {
                    assert(false);
                },
            }
            i = i + 1;
        }
        r
    }

    /// Table to owner.
    pub fn table_assignments(&self) -> (r: TextMap<PartitionId>)
        ensures
            r@ == self@.rules,
    {
        copy_rules(&self.rules)
    }

    pub fn into_partition_map(&self, local_partition: PartitionId) -> (r: PartitionMap)
        ensures
            r@ == self@.routing(local_partition),
    {
        proof {
            use_type_invariant(self);
        }
        PartitionMap {
            assignments: self.table_assignments(),
            local_partition,
            num_partitions: self.num_partitions,
            placement_version: self.version,
        }
    }

    /// Another copy of the metadata.
    pub fn copy(&self) -> (r: Self)
        ensures
            r@ == self@,
    {
        proof {
            use_type_invariant(self);
        }
        let r = PlacementMetadata {
            source: self.source,
            version: self.version,
            num_partitions: self.num_partitions,
            rules: copy_rules(&self.rules),
            members: copy_members(&self.members),
        };
        r
    }
}

/// A copy of a membership table.
pub fn copy_members(m: &BTreeMap<u32, Vec<String>>) -> (r: BTreeMap<u32, Vec<String>>)
    ensures
        members_of(r@) == members_of(m@),
{
    let keys: Vec<u32> = ordered::keys_u32(m);
    let mut r: BTreeMap<u32, Vec<String>> = BTreeMap::new();
    let mut i: usize = 0;
    while i < keys.len()
        invariant
            i <= keys.len(),
            keys@.to_set() == m@.dom(),
            forall|p: u32| #[trigger]
                r@.contains_key(p) ==> m@.contains_key(p) && texts(r@[p]@) == texts(m@[p]@),
            forall|j: int| 0 <= j < i ==> r@.contains_key(#[trigger] keys@[j]),
        decreases keys.len() - i,
    {
        let p: u32 = keys[i];
        assert(keys@.to_set().contains(p));
        match m.get(&p) {
            Some(v) => {
                r.insert(p, copy_strings(v));
            },
            None => {},
        }
        i = i + 1;
    }
    proof {
        assert forall|p: u32| m@.contains_key(p) implies r@.contains_key(p) by {
            assert(keys@.to_set().contains(p));
            let j = choose|j: int| 0 <= j < keys@.len() && keys@[j] == p;
            assert(r@.contains_key(keys@[j]));
        }
        assert(members_of(r@) =~= members_of(m@));
    }
    r
}

impl PlacementRule {
    /// The table the rule is about.
    pub open spec fn table(self) -> Seq<char> {
        match self.target {
            PlacementTarget::Table(t) => t@,
        }
    }
}

/// Maps table names to partitions.
///
/// System tables (starting with `_`) are always on partition 0. User tables are
/// assigned based on the configuration. Unassigned user tables default to
/// partition 0.
#[derive(Debug)]
pub struct PartitionMap {
    /// Explicit table to partition assignments.
    assignments: TextMap<PartitionId>,
    /// The partition this node owns.
    local_partition: PartitionId,
    /// Total number of partitions in the cluster.
    num_partitions: u32,
    /// Version of the placement metadata used to build this map.
    placement_version: PlacementVersion,
}

impl View for PartitionMap {
    type V = Routing;

    closed spec fn view(&self) -> Routing {
        Routing {
            assignments: self.assignments@,
            local: self.local_partition,
            num_partitions: self.num_partitions,
            version: self.placement_version,
        }
    }
}

impl PartitionMap {
    #[verifier::type_invariant]
    spec fn is_valid(self) -> bool {
        names_tables(self.assignments@)
    }

    /// Creates a partition map from a config string such as
    /// `"table1=1,table2=1,table3=2,table4=2"`.
    pub fn from_config(config: &str, local_partition: PartitionId, num_partitions: u32) -> (r: Self)
        ensures
            r@ == (Routing {
                assignments: rules_in(text::pieces(config@, ',')),
                local: local_partition,
                num_partitions,
                version: PlacementVersion(0),
            }),
    {
        Self::from_config_with_version(
            config,
            local_partition,
            num_partitions,
            PlacementVersion(STATIC_VERSION),
        )
    }

    /// Creates a partition map from a config string and placement version.
    pub fn from_config_with_version(
        config: &str,
        local_partition: PartitionId,
        num_partitions: u32,
        placement_version: PlacementVersion,
    ) -> (r: Self)
        ensures
            r@ == (Routing {
                assignments: rules_in(text::pieces(config@, ',')),
                local: local_partition,
                num_partitions,
                version: placement_version,
            }),
    {
        PlacementMetadata::from_static_config(
            StaticPlacementConfig { table_assignments: config, num_partitions, placement_version },
        ).into_partition_map(local_partition)
    }

    /// Creates a single-partition map (all tables on partition 0).
    pub fn single_partition() -> (r: Self)
        ensures
            r@ == (Routing {
                assignments: Map::empty(),
                local: PartitionId(0),
                num_partitions: 1,
                version: PlacementVersion(0),
            }),
    {
        PartitionMap {
            assignments: TextMap::new(),
            local_partition: PartitionId(DEFAULT_PARTITION),
            num_partitions: 1,
            placement_version: PlacementVersion(STATIC_VERSION),
        }
    }

    /// The partition that owns the given table.
    ///
    /// System tables (starting with `_`) always return partition 0. User tables
    /// return their configured partition, or partition 0 if not explicitly
    /// assigned.
    pub fn partition_for_table(&self, table: &TableName) -> (r: PartitionId)
        ensures
            r == self@.owner(table@),
    {
        if table.is_system() {
            return PartitionId(DEFAULT_PARTITION);
        }
        match self.assignments.get(table.as_str()) {
            Some(owner) => *owner,
            None => PartitionId(DEFAULT_PARTITION),
        }
    }

    /// Whether this node owns the given table.
    pub fn is_local(&self, table: &TableName) -> (r: bool)
        ensures
            r == (self@.owner(table@) == self@.local),
    {
        self.partition_for_table(table) == self.local_partition
    }

    /// All tables assigned to a specific partition, ascending.
    pub fn tables_for_partition(&self, partition: PartitionId) -> (r: Vec<TableName>)
        ensures
            table_texts(r@) == self@.tables_of(partition),
    {
        proof {
            use_type_invariant(self);
        }
        let mut r: Vec<TableName> = Vec::new();
        let n: usize = self.assignments.len();
        let mut i: usize = 0;
        let ghost keys = text_map::in_order(self.assignments@.dom());
        assert(keys.take(0) =~= seq![]);
        assert(table_texts(r@) =~= seq![]);
        while i < n
            invariant
                i <= n,
                n == keys.len(),
                keys == text_map::in_order(self.assignments@.dom()),
                names_tables(self.assignments@),
                table_texts(r@) == assigned_to(
                    keys.take(i as int),
                    self.assignments@,
                    partition,
                ),
            decreases n - i,
        {
            proof {
                assert(keys.take(i + 1).drop_last() =~= keys.take(i as int));
            }
            let owner: PartitionId = *self.assignments.value_at(i);
            if owner == partition {
                match TableName::parse(self.assignments.key_at(i).as_str()) {
                    Some(table) => {
                        let ghost before = r@;
                        let ghost t = table@;
                        r.push(table);
                        assert(table_texts(r@) =~= table_texts(before).push(t));
                    },
                    None => {
                        assert(false);
                    },
                }
            }
            i = i + 1;
        }
        assert(keys.take(i as int) =~= keys);
        r
    }

    /// This node's partition.
    pub fn local_partition(&self) -> (r: PartitionId)
        ensures
            r == self@.local,
    {
        self.local_partition
    }

    /// The total number of partitions.
    pub fn num_partitions(&self) -> (r: u32)
        ensures
            r == self@.num_partitions,
    {
        self.num_partitions
    }

    /// The placement metadata version.
    pub fn placement_version(&self) -> (r: PlacementVersion)
        ensures
            r == self@.version,
    {
        self.placement_version
    }

    /// All partitions in the cluster.
    pub fn all_partitions(&self) -> (r: Vec<PartitionId>)
        ensures
            r@ == Seq::new(self@.num_partitions as nat, |i: int| PartitionId(i as u32)),
    {
        let mut r: Vec<PartitionId> = Vec::new();
        let mut i: u32 = 0;
        while i < self.num_partitions
            invariant
                i <= self.num_partitions,
                r@ == Seq::new(i as nat, |i: int| PartitionId(i as u32)),
            decreases self.num_partitions - i,
        {
            r.push(PartitionId(i));
            i = i + 1;
            assert(r@ =~= Seq::new(i as nat, |i: int| PartitionId(i as u32)));
        }
        r
    }

    /// All explicit assignments.
    pub fn assignments(&self) -> (r: &TextMap<PartitionId>)
        ensures
            r@ == self@.assignments,
    {
        &self.assignments
    }
}

/// The texts of a list of table names.
pub open spec fn table_texts(q: Seq<TableName>) -> Seq<Seq<char>> {
    q.map_values(|t: TableName| t@)
}

/// Those of `tables` that `m` assigns to `partition`, in order.
pub open spec fn assigned_to(
    tables: Seq<Seq<char>>,
    m: Map<Seq<char>, PartitionId>,
    partition: PartitionId,
) -> Seq<Seq<char>>
    decreases tables.len(),
{
    if tables.len() == 0 {
        seq![]
    } else {
        let r = assigned_to(tables.drop_last(), m, partition);
        if m[tables.last()] == partition {
            r.push(tables.last())
        } else {
            r
        }
    }
}

impl Routing {
    /// The tables assigned to `partition`, ascending.
    pub open spec fn tables_of(self, partition: PartitionId) -> Seq<Seq<char>> {
        assigned_to(text_map::in_order(self.assignments.dom()), self.assignments, partition)
    }
}

/// Whether `write_source` is a deploy metadata operation, which is coordinated
/// by the metadata owner.
pub fn uses_metadata_owner(write_source: &WriteSource) -> (r: bool)
    ensures
        r == is_deploy(write_source@),
{
    match write_source.as_str() {
        Some(s) => text::same(s, "start_push") || text::same(s, "finish_push"),
        None => false,
    }
}

/// The authoritative partition for tables that should be coordinated
/// cluster-wide for the current operation.
///
/// - User tables always have a single partition owner.
/// - Deploy metadata operations (`start_push`, `finish_push`) route system
///   tables to the metadata owner on partition 0.
/// - Other system-table writes are node-local operational state and therefore
///   return `None`.
pub fn routed_partition_for_table(
    table: &TableName,
    partition_map: &PartitionMap,
    write_source: &WriteSource,
) -> (r: Option<PartitionId>)
    ensures
        r == partition_map@.routed(table@, write_source@),
{
    if !table.is_system() || uses_metadata_owner(write_source) {
        Some(partition_map.partition_for_table(table))
    } else {
        None
    }
}

/// System tables belong to the default partition, whatever is assigned. Where
/// their writes are coordinated at all, they are coordinated there.
pub proof fn system_tables_have_the_default_owner(
    routing: Routing,
    table: Seq<char>,
    source: Option<Seq<char>>,
)
    requires
        names::is_system_name(table),
    ensures
        routing.owner(table) == PartitionId(DEFAULT_PARTITION),
        routing.routed(table, source) matches Some(p) ==> p == PartitionId(DEFAULT_PARTITION),
{
}

/// Tables that are not assigned belong to the default partition.
pub proof fn unassigned_tables_have_the_default_owner(routing: Routing, table: Seq<char>)
    requires
        !routing.assignments.contains_key(table),
    ensures
        routing.owner(table) == PartitionId(DEFAULT_PARTITION),
{
}

/// Nodes that use one placement agree on who owns a table, and at most one of
/// them takes it for its own: each table has a single writer.
pub proof fn tables_have_one_writer(p: Placement, a: PartitionId, b: PartitionId, table: Seq<char>)
    ensures
        p.routing(a).owner(table) == p.routing(b).owner(table),
        p.routing(a).owner(table) == a && p.routing(b).owner(table) == b ==> a == b,
{
}

proof fn lemma_assigned_to(
    tables: Seq<Seq<char>>,
    m: Map<Seq<char>, PartitionId>,
    partition: PartitionId,
    table: Seq<char>,
)
    ensures
        assigned_to(tables, m, partition).contains(table) <==> tables.contains(table) && m[table]
            == partition,
    decreases tables.len(),
{
    if tables.len() > 0 {
        let rest = tables.drop_last();
        let r = assigned_to(rest, m, partition);
        lemma_assigned_to(rest, m, partition, table);
        if rest.contains(table) {
            let i = choose|i: int| 0 <= i < rest.len() && rest[i] == table;
            assert(tables[i] == table);
        }
        if tables.contains(table) && !rest.contains(table) {
            let i = choose|i: int| 0 <= i < tables.len() && tables[i] == table;
            if i < rest.len() {
                assert(rest[i] == table);
            }
            assert(tables.last() == table);
        }
        if m[tables.last()] == partition {
            let all = r.push(tables.last());
            assert(all[r.len() as int] == tables.last());
            if r.contains(table) {
                let i = choose|i: int| 0 <= i < r.len() && r[i] == table;
                assert(all[i] == table);
            }
            if all.contains(table) {
                let i = choose|i: int| 0 <= i < all.len() && all[i] == table;
                if i < r.len() {
                    assert(r[i] == table);
                }
            }
        }
    }
}

/// A user table that is assigned is listed under its owner, and nowhere else.
pub proof fn assigned_tables_are_listed_under_their_owner(
    routing: Routing,
    table: Seq<char>,
    partition: PartitionId,
)
    requires
        routing.assignments.dom().finite(),
        routing.assignments.contains_key(table),
        !names::is_system_name(table),
    ensures
        routing.tables_of(partition).contains(table) <==> routing.owner(table) == partition,
{
    let keys = text_map::in_order(routing.assignments.dom());
    text_map::lemma_in_order(routing.assignments.dom());
    lemma_assigned_to(keys, routing.assignments, partition, table);
    assert(keys.to_set().contains(table));
}

/// A user table that is assigned belongs to the partition it is assigned to; any
/// other table belongs to partition 0.
pub proof fn tables_belong_where_they_are_assigned(routing: Routing, table: Seq<char>)
    requires
        table.len() > 0,
    ensures
        table[0] != '_' && routing.assignments.contains_key(table) ==> routing.owner(table)
            == routing.assignments[table],
        table[0] == '_' || !routing.assignments.contains_key(table) ==> routing.owner(table).0 == 0,
{
}

/// A user table is coordinated by its owner, whoever writes; a system table only for
/// the two deploy operations, by partition 0, and is otherwise each node's own.
pub proof fn tables_are_coordinated_by_their_owner(
    routing: Routing,
    table: Seq<char>,
    source: Option<Seq<char>>,
)
    requires
        table.len() > 0,
    ensures
        table[0] != '_' ==> routing.routed(table, source) == Some(routing.owner(table)),
        table[0] == '_' && (source == Some("start_push"@) || source == Some("finish_push"@))
            ==> routing.routed(table, source) == Some(PartitionId(0)),
        table[0] == '_' && source != Some("start_push"@) && source != Some("finish_push"@)
            ==> routing.routed(table, source) is None,
{
}

/// The routing of a node is that of the placement: its rules, its size and its
/// version, from where the node stands.
pub proof fn nodes_route_by_the_placement(p: Placement, local: PartitionId)
    ensures
        p.routing(local).assignments == p.rules,
        p.routing(local).local == local,
        p.routing(local).num_partitions == p.num_partitions,
        p.routing(local).version == p.version,
{
}

/// The last rule for a table counts, and a table without a rule is not assigned.
pub proof fn the_last_rule_counts(pairs: Seq<Seq<char>>, table: Seq<char>)
    ensures
        rules_in(pairs).contains_key(table) <==> exists|i: int|
            0 <= i < pairs.len() && (rule_in(#[trigger] pairs[i]) matches Some(r) && r.0 == table),
        forall|i: int|
            0 <= i < pairs.len() && (rule_in(#[trigger] pairs[i]) matches Some(r) && r.0 == table)
                && (forall|j: int|
                i < j < pairs.len() ==> !(rule_in(#[trigger] pairs[j]) matches Some(r) && r.0
                    == table)) ==> rules_in(pairs)[table] == (rule_in(pairs[i])->0).1,
    decreases pairs.len(),
{
    if pairs.len() > 0 {
        let front = pairs.drop_last();
        let n = pairs.len() - 1;
        the_last_rule_counts(front, table);
        let is_for = |p: Seq<char>| rule_in(p) matches Some(r) && r.0 == table;
        if rules_in(front).contains_key(table) {
            let i = choose|i: int|
                0 <= i < front.len() && (rule_in(#[trigger] front[i]) matches Some(r) && r.0
                    == table);
            assert(pairs[i] == front[i]);
        }
        if exists|i: int|
            0 <= i < pairs.len() && (rule_in(#[trigger] pairs[i]) matches Some(r) && r.0
                == table) {
            let i = choose|i: int|
                0 <= i < pairs.len() && (rule_in(#[trigger] pairs[i]) matches Some(r) && r.0
                    == table);
            if i < n {
                assert(front[i] == pairs[i]);
            }
        }
        assert(pairs[n] == pairs.last());
        assert forall|i: int|
            0 <= i < pairs.len() && (rule_in(#[trigger] pairs[i]) matches Some(r) && r.0 == table)
                && (forall|j: int|
                i < j < pairs.len() ==> !(rule_in(#[trigger] pairs[j]) matches Some(r) && r.0
                    == table)) implies rules_in(pairs)[table] == (rule_in(pairs[i])->0).1 by {
            if i < n {
                assert(front[i] == pairs[i]);
                assert forall|j: int| i < j < front.len() implies !(rule_in(
                    #[trigger] front[j],
                ) matches Some(r) && r.0 == table) by {
                    assert(front[j] == pairs[j]);
                }
                assert(!(rule_in(pairs[n]) matches Some(r) && r.0 == table));
            }
        }
    }
}

/// A rule is for a table, with a number behind the equals sign; the spaces around
/// both do not count.
pub proof fn rules_name_tables_and_numbers(pair: Seq<char>)
    ensures
        rule_in(pair) matches Some((table, owner)) ==> {
            &&& names::is_table_name(table)
            &&& text::cut(text::trimmed(pair), '=') matches Some((left, right))
                && text::trimmed(left) == table && text::number(
                text::trimmed(right),
                0xffff_ffff,
            ) == Some(owner.0 as nat)
        },
        text::cut(text::trimmed(pair), '=') matches Some((left, right)) ==> (
        names::is_table_name(text::trimmed(left)) && text::number(
            text::trimmed(right),
            0xffff_ffff,
        ) is Some ==> rule_in(pair) is Some),
{
}

/// Of a list of assignments the last one of a table counts.
pub proof fn the_last_assignment_counts(q: Seq<(TableName, PartitionId)>, i: int)
    requires
        0 <= i < q.len(),
        forall|j: int| i < j < q.len() ==> (#[trigger] q[j]).0@ != q[i].0@,
    ensures
        assigned(q).contains_key(q[i].0@),
        assigned(q)[q[i].0@] == q[i].1,
    decreases q.len(),
{
    if i < q.len() - 1 {
        assert(q.drop_last()[i] == q[i]);
        assert(q[q.len() - 1].0@ != q[i].0@);
        the_last_assignment_counts(q.drop_last(), i);
    }
}

/// Nothing is assigned that the list does not name.
pub proof fn only_listed_tables_are_assigned(q: Seq<(TableName, PartitionId)>, table: Seq<char>)
    requires
        forall|j: int| 0 <= j < q.len() ==> (#[trigger] q[j]).0@ != table,
    ensures
        !assigned(q).contains_key(table),
    decreases q.len(),
{
    if q.len() > 0 {
        assert(q[q.len() - 1].0@ != table);
        assert forall|j: int| 0 <= j < q.drop_last().len() implies (#[trigger] q.drop_last()[j]).0@
            != table by {
            assert(q.drop_last()[j] == q[j]);
        }
        only_listed_tables_are_assigned(q.drop_last(), table);
    }
}

/// Every address that is not blank is kept, trimmed, and nothing else is.
pub proof fn usable_addresses_are_those_not_blank(addresses: Seq<Seq<char>>, a: Seq<char>)
    ensures
        usable(addresses).contains(a) <==> a.len() > 0 && exists|i: int|
            0 <= i < addresses.len() && text::trimmed(#[trigger] addresses[i]) == a,
    decreases addresses.len(),
{
    if addresses.len() > 0 {
        let front = addresses.drop_last();
        let u = usable(front);
        let n = addresses.len() - 1;
        usable_addresses_are_those_not_blank(front, a);
        assert(addresses[n] == addresses.last());
        let last = text::trimmed(addresses.last());
        if u.contains(a) {
            let i = choose|i: int|
                0 <= i < front.len() && text::trimmed(#[trigger] front[i]) == a;
            assert(addresses[i] == front[i]);
            let k = choose|k: int| 0 <= k < u.len() && u[k] == a;
            assert(usable(addresses)[k] == a);
        }
        if a.len() > 0 && last == a {
            assert(usable(addresses)[u.len() as int] == a);
        }
        if exists|i: int| 0 <= i < addresses.len() && text::trimmed(#[trigger] addresses[i]) == a {
            let i = choose|i: int|
                0 <= i < addresses.len() && text::trimmed(#[trigger] addresses[i]) == a;
            if i < n {
                assert(front[i] == addresses[i]);
            }
        }
        if usable(addresses).contains(a) {
            let k = choose|k: int| 0 <= k < usable(addresses).len() && usable(addresses)[k] == a;
            if k < u.len() {
                assert(u[k] == a);
            }
        }
    }
}

/// A member is kept exactly where it has an address that is not blank.
pub proof fn members_have_addresses(members: Map<u32, Seq<Seq<char>>>, p: u32)
    ensures
        usable_members(members).contains_key(p) ==> members.contains_key(p) && usable_members(
            members,
        )[p] == usable(members[p]) && usable_members(members)[p].len() > 0,
        members.contains_key(p) && usable(members[p]).len() > 0 ==> usable_members(
            members,
        ).contains_key(p),
{
}

} // verus!
