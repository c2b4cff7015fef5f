//! Placement metadata in use: the refreshable routing state, the published
//! record, and its transport form.
use crate::metrics;
use crate::metrics::MetricsRecorder;
use crate::names;
use crate::names::TableName;
use crate::ordered;
use crate::partition;
use crate::partition::{
    PartitionId, PartitionMap, Placement, PlacementError, PlacementMetadata,
    PlacementMetadataSource, PlacementVersion,
};
use crate::text;
use crate::text_map;
use crate::text_map::TextMap;
use crate::two_phase::NodeAddresses;
use std::collections::BTreeMap;
use vstd::prelude::*;
use vstd::string::*;

verus! {

broadcast use {vstd::std_specs::btree::group_btree_axioms, vstd::laws_cmp::group_laws_cmp};

/// Whether `local` is one of the partitions.
pub open spec fn checked_local(local: PartitionId, num_partitions: u32) -> Result<
    (),
    PlacementError,
> {
    if local.0 < num_partitions {
        Ok(())
    } else {
        Err(PlacementError::LocalOutside { local, num_partitions })
    }
}

/// Whether a node at `local` that routes with `current` adopts `next`.
pub open spec fn checked_refresh(local: PartitionId, current: Placement, next: Placement) -> Result<
    (),
    PlacementError,
> {
    if local.0 >= next.num_partitions {
        checked_local(local, next.num_partitions)
    } else if next.version.0 >= current.version.0 {
        Ok(())
    } else {
        Err(
            PlacementError::Downgrade { current: current.version, requested: next.version },
        )
    }
}

/// A component that routes with placement metadata and can adopt a newer
/// version at runtime.
///
/// [`refresh_placement_once`] is written against this trait so its decision
/// logic, to install strictly newer versions only, can be exercised on its own.
pub trait PlacementRefreshTarget: Sized {
    /// The version in use.
    spec fn version_in_use(&self) -> PlacementVersion;

    /// For which partition the target routes, and by which placement.
    spec fn placement_in_use(&self) -> Option<(PartitionId, Placement)>;

    /// Whether the target adopts `next`.
    spec fn verdict(&self, next: Placement) -> Result<(), PlacementError>;

    fn current_placement_version(&self) -> (r: PlacementVersion)
        ensures
            r == self.version_in_use(),
    ;

    fn install_placement_metadata(&mut self, metadata: PlacementMetadata) -> (r: Result<
        (),
        PlacementError,
    >)
        ensures
            r == old(self).verdict(metadata@),
            r is Ok ==> final(self).version_in_use() == metadata@.version,
            r is Ok ==> replaced(
                old(self).placement_in_use(),
                final(self).placement_in_use(),
                metadata@,
            ),
            r is Err ==> *final(self) == *old(self),
    ;
}

/// The partition stays, and the placement is `next`.
pub open spec fn replaced(
    before: Option<(PartitionId, Placement)>,
    after: Option<(PartitionId, Placement)>,
    next: Placement,
) -> bool {
    match before {
        Some((local, _)) => after == Some((local, next)),
        None => false,
    }
}

/// Refreshable placement state shared by routing components.
///
/// Callers take a [`PartitionMap`] snapshot before classifying or coordinating
/// a transaction. That keeps a single transaction internally consistent even if
/// a newer placement version is installed concurrently.
#[derive(Debug)]
pub struct PlacementState {
    local_partition: PartitionId,
    metadata: PlacementMetadata,
}

impl View for PlacementState {
    type V = (PartitionId, Placement);

    closed spec fn view(&self) -> (PartitionId, Placement) {
        (self.local_partition, self.metadata@)
    }
}

impl PlacementState {
    pub fn new(local_partition: PartitionId, metadata: PlacementMetadata) -> (r: Result<
        Self,
        PlacementError,
    >)
        ensures
            match r {
                Ok(state) => local_partition.0 < metadata@.num_partitions && state@ == (
                    local_partition,
                    metadata@,
                ),
                Err(e) => checked_local(local_partition, metadata@.num_partitions) == Err::<
                    (),
                    PlacementError,
                >(e),
            },
    {
        match Self::validate_local_partition(local_partition, metadata.num_partitions()) {
            Ok(()) => Ok(PlacementState { local_partition, metadata }),
            Err(e) => Err(e),
        }
    }

    pub fn from_partition_map(partition_map: PartitionMap) -> (r: Self)
        ensures
            r@ == (
                partition_map@.local,
                Placement {
                    source: PlacementMetadataSource::StaticConfig,
                    version: partition_map@.version,
                    num_partitions: partition_map@.num_partitions,
                    rules: partition_map@.assignments,
                    members: Map::empty(),
                },
            ),
    {
        let metadata = PlacementMetadata::from_partition_map(
            &partition_map,
            PlacementMetadataSource::StaticConfig,
        );
        PlacementState { local_partition: partition_map.local_partition(), metadata }
    }

    /// A snapshot of the routing state.
    pub fn partition_map(&self) -> (r: PartitionMap)
        ensures
            r@ == self@.1.routing(self@.0),
    {
        self.metadata.into_partition_map(self.local_partition)
    }

    /// Adopts `metadata`, unless it is older than what is in use or has no
    /// place for this node.
    pub fn refresh(&mut self, metadata: PlacementMetadata) -> (r: Result<(), PlacementError>)
        ensures
            r == checked_refresh(old(self)@.0, old(self)@.1, metadata@),
            r is Ok ==> final(self)@ == (old(self)@.0, metadata@),
            r is Err ==> *final(self) == *old(self),
    {
        match Self::validate_local_partition(self.local_partition, metadata.num_partitions()) {
            Ok(()) => {},
            Err(e) => {
                return Err(e);
            },
        }
        let current: PlacementVersion = self.metadata.version();
        let requested: PlacementVersion = metadata.version();
        if requested < current {
            return Err(PlacementError::Downgrade { current, requested });
        }
        self.metadata = metadata;
        Ok(())
    }

    pub fn placement_version(&self) -> (r: PlacementVersion)
        ensures
            r == self@.1.version,
    {
        self.metadata.version()
    }

    /// Snapshots the cluster membership for two-phase routing.
    ///
    /// Returns `None` when the record carries no membership, so the caller can
    /// fall back to the statically configured addresses.
    pub fn node_addresses(&self) -> (r: Option<NodeAddresses>)
        ensures
            match r {
                Some(a) => !self@.1.members.dom().is_empty() && a@ == self@.1.members,
                None => self@.1.members.dom().is_empty(),
            },
    {
        let members = self.metadata.members();
        assert(partition::members_of(members@).dom() =~= members@.dom());
        if members.is_empty() {
            None
        } else {
            Some(NodeAddresses::from_map(partition::copy_members(members)))
        }
    }

    pub fn local_partition(&self) -> (r: PartitionId)
        ensures
            r == self@.0,
    {
        self.local_partition
    }

    pub fn num_partitions(&self) -> (r: u32)
        ensures
            r == self@.1.num_partitions,
    {
        self.metadata.num_partitions()
    }

    fn validate_local_partition(local_partition: PartitionId, num_partitions: u32) -> (r: Result<
        (),
        PlacementError,
    >)
        ensures
            r == checked_local(local_partition, num_partitions),
    {
        if local_partition.0 < num_partitions {
            Ok(())
        } else {
            Err(PlacementError::LocalOutside { local: local_partition, num_partitions })
        }
    }
}

impl PlacementRefreshTarget for PlacementState {
    open spec fn version_in_use(&self) -> PlacementVersion {
        self@.1.version
    }

    open spec fn placement_in_use(&self) -> Option<(PartitionId, Placement)> {
        Some(self@)
    }

    open spec fn verdict(&self, next: Placement) -> Result<(), PlacementError> {
        checked_refresh(self@.0, self@.1, next)
    }

    fn current_placement_version(&self) -> (r: PlacementVersion) {
        self.placement_version()
    }

    fn install_placement_metadata(&mut self, metadata: PlacementMetadata) -> (r: Result<
        (),
        PlacementError,
    >) {
        self.refresh(metadata)
    }
}

/// Installs the authoritative placement record `latest` if it is newer than
/// what the target is currently routing with.
///
/// Returns the version that was installed, or `None` when nothing changed (no
/// record yet, or the record is not newer). Equal versions are intentionally a
/// no-op so an idle cluster does not churn the routing state. What is installed is
/// measured.
pub fn refresh_placement_once<T: PlacementRefreshTarget>(
    metrics: &mut MetricsRecorder,
    latest: Option<PlacementMetadata>,
    target: &mut T,
) -> (r: Result<Option<PlacementVersion>, PlacementError>)
    ensures
        match latest {
            Some(m) if m@.version.0 > old(target).version_in_use().0 => match old(target).verdict(
                m@,
            ) {
                Ok(_) => r == Ok::<Option<PlacementVersion>, PlacementError>(Some(m@.version))
                    && final(target).version_in_use() == m@.version && replaced(
                    old(target).placement_in_use(),
                    final(target).placement_in_use(),
                    m@,
                ),
                Err(e) => r == Err::<Option<PlacementVersion>, PlacementError>(e) && *final(target)
                    == *old(target),
            },
            _ => r == Ok::<Option<PlacementVersion>, PlacementError>(None) && *final(target)
                == *old(target),
        },
        final(metrics)@ == match r {
            Ok(Some(version)) => old(metrics)@.push(
                metrics::gauged(
                    "DATABASE_PLACEMENT_METADATA_VERSION_INFO"@,
                    version.0 as int,
                    metrics::unlabelled(),
                ),
            ),
            _ => old(metrics)@,
        },
{
    match latest {
        Some(metadata) => {
            let new_version: PlacementVersion = metadata.version();
            if new_version <= target.current_placement_version() {
                return Ok(None);
            }
            match target.install_placement_metadata(metadata) {
                Ok(()) => {
                    metrics::log_placement_metadata_refresh(metrics, new_version.0);
                    Ok(Some(new_version))
                },
                Err(e) => Err(e),
            }
        },
        None => Ok(None),
    }
}

/// Whether `next` may be published over `current`: nothing is published yet, or
/// the version is strictly greater.
pub open spec fn checked_publish(current: Option<Placement>, next: Placement) -> Result<
    (),
    PlacementError,
> {
    match current {
        Some(c) => if next.version.0 > c.version.0 {
            Ok(())
        } else {
            Err(
                PlacementError::NotNewer { current: c.version, requested: next.version },
            )
        },
        None => Ok(()),
    }
}

/// How a record is written: created, or replaced if it still has the revision
/// that was read.
#[derive(Clone, Copy, Debug, PartialEq, Eq, Structural)]
pub enum PublishStep {
    Create,
    Update { revision: u64 },
}

/// Decides how `metadata` is published over the record that was read with its
/// revision. The update is a compare-and-set, so two concurrent publishers
/// cannot silently clobber each other.
pub fn plan_publish(current: Option<&(PlacementMetadata, u64)>, metadata: &PlacementMetadata) -> (r:
    Result<PublishStep, PlacementError>)
    ensures
        match current {
            Some(c) => match checked_publish(Some(c.0@), metadata@) {
                Ok(_) => r == Ok::<PublishStep, PlacementError>(
                    PublishStep::Update { revision: c.1 },
                ),
                Err(e) => r == Err::<PublishStep, PlacementError>(e),
            },
            None => r == Ok::<PublishStep, PlacementError>(PublishStep::Create),
        },
{
    match current {
        Some(c) => {
            let existing: PlacementVersion = c.0.version();
            let requested: PlacementVersion = metadata.version();
            if requested > existing {
                Ok(PublishStep::Update { revision: c.1 })
            } else {
                Err(PlacementError::NotNewer { current: existing, requested })
            }
        },
        None => Ok(PublishStep::Create),
    }
}

/// The published record, held in memory: initializing is first-write-wins and
/// publishing requires a strictly greater version.
#[derive(Debug)]
pub struct InMemoryPlacementMetadataStore {
    current: Option<PlacementMetadata>,
}

impl View for InMemoryPlacementMetadataStore {
    type V = Option<Placement>;

    closed spec fn view(&self) -> Option<Placement> {
        match self.current {
            Some(m) => Some(m@),
            None => None,
        }
    }
}

impl InMemoryPlacementMetadataStore {
    pub fn new() -> (r: Self)
        ensures
            r@ is None,
    {
        InMemoryPlacementMetadataStore { current: None }
    }

    /// The published record.
    pub fn load(&self) -> (r: Option<PlacementMetadata>)
        ensures
            match r {
                Some(m) => self@ == Some(m@),
                None => self@ is None,
            },
    {
        match &self.current {
            Some(m) => Some(m.copy()),
            None => None,
        }
    }

    /// Publishes `bootstrap` if nothing is published; returns what is.
    pub fn ensure_initialized(&mut self, bootstrap: PlacementMetadata) -> (r: PlacementMetadata)
        ensures
            final(self)@ == Some(r@),
            old(self)@ matches Some(c) ==> r@ == c,
            old(self)@ is None ==> r@ == bootstrap@,
    {
        match &self.current {
            Some(m) => m.copy(),
            None => {
                let r: PlacementMetadata = bootstrap.copy();
                self.current = Some(bootstrap);
                r
            },
        }
    }

    /// Publishes a new placement version. It must be strictly greater than the
    /// current one.
    pub fn publish(&mut self, metadata: PlacementMetadata) -> (r: Result<
        PlacementMetadata,
        PlacementError,
    >)
        ensures
            match checked_publish(old(self)@, metadata@) {
                Ok(_) => r is Ok && r->Ok_0@ == metadata@ && final(self)@ == Some(metadata@),
                Err(_) => r is Err && r->Err_0 == (PlacementError::NotNewerInMemory {
                    current: old(self)@->0.version,
                    requested: metadata@.version,
                }) && *final(self) == *old(self),
            },
    {
        match &self.current {
            Some(existing) => {
                let current: PlacementVersion = existing.version();
                let requested: PlacementVersion = metadata.version();
                if requested <= current {
                    return Err(PlacementError::NotNewerInMemory { current, requested });
                }
            },
            None => {},
        }
        let r: PlacementMetadata = metadata.copy();
        self.current = Some(metadata);
        Ok(r)
    }
}

/// What a transported record says.
#[verifier::ext_equal]
pub struct Record {
    pub version: u64,
    pub num_partitions: u32,
    pub table_assignments: Map<Seq<char>, u32>,
    pub members: Map<Seq<char>, Seq<Seq<char>>>,
}

/// Placement metadata as it is transported: names and numbers as text, and
/// membership keyed by the partition number in decimal notation.
#[derive(Debug)]
pub struct SerializedPlacementMetadata {
    pub version: u64,
    pub num_partitions: u32,
    pub table_assignments: TextMap<u32>,
    /// Partition number to peer addresses; empty in records that were written
    /// before membership existed.
    pub members: TextMap<Vec<String>>,
}

/// What a transported membership table says.
pub open spec fn listed_members(m: Map<Seq<char>, Vec<String>>) -> Map<Seq<char>, Seq<Seq<char>>> {
    m.map_values(|v: Vec<String>| partition::texts(v@))
}

impl View for SerializedPlacementMetadata {
    type V = Record;

    open spec fn view(&self) -> Record {
        Record {
            version: self.version,
            num_partitions: self.num_partitions,
            table_assignments: self.table_assignments@,
            members: listed_members(self.members@),
        }
    }
}

/// Membership keyed by decimal text.
pub open spec fn keyed_by_text(members: Map<u32, Seq<Seq<char>>>) -> Map<Seq<char>, Seq<Seq<char>>> {
    Map::new(
        |k: Seq<char>| exists|p: u32| #[trigger] members.contains_key(p) && k == text::dec(p as nat),
        |k: Seq<char>| members[text::value_of(k) as u32],
    )
}

/// The transport form of `p`.
pub open spec fn encoded(p: Placement) -> Record {
    Record {
        version: p.version.0,
        num_partitions: p.num_partitions,
        table_assignments: p.rules.map_values(|owner: PartitionId| owner.0),
        members: keyed_by_text(p.members),
    }
}

/// The members listed under `keys`, a later one in place of an earlier one.
pub open spec fn read_members(
    keys: Seq<Seq<char>>,
    m: Map<Seq<char>, Seq<Seq<char>>>,
) -> Map<u32, Seq<Seq<char>>>
    decreases keys.len(),
{
    if keys.len() == 0 {
        Map::empty()
    } else {
        let r = read_members(keys.drop_last(), m);
        match text::number(keys.last(), u32::MAX as nat) {
            Some(p) => r.insert(p as u32, m[keys.last()]),
            None => r,
        }
    }
}

/// Why a transported record means nothing.
#[derive(Debug, PartialEq, Eq)]
pub enum RecordError {
    /// An assignment is to something that is no table.
    InvalidTableName(String),
    /// The membership table lists something that is no partition number.
    InvalidPartition(String),
}

/// Why a transported record means nothing, as contracts speak of it.
pub enum Fault {
    TableName(Seq<char>),
    Partition(Seq<char>),
}

impl View for RecordError {
    type V = Fault;

    open spec fn view(&self) -> Fault {
        match self {
            RecordError::InvalidTableName(name) => Fault::TableName(name@),
            RecordError::InvalidPartition(key) => Fault::Partition(key@),
        }
    }
}

/// What Rust's `Debug` writes for a text: the text between quotes, with escapes.
pub uninterp spec fn debug_text(s: Seq<char>) -> Seq<char>;

/// A text between quotes, with escapes, as it is shown in a message.
///
/// Calls `format!` with the `Debug` of `str`, of which nothing is claimed but that
/// it is determined by the text.
#[verifier::external_body]
fn shown(s: &str) -> (r: String)
    ensures
        r@ == debug_text(s@),
{
    format!("{s:?}")
}

impl Fault {
    /// What the error says.
    pub open spec fn text(self) -> Seq<char> {
        match self {
            Fault::TableName(name) => "Placement metadata: invalid table name \""@ + name + "\""@,
            Fault::Partition(key) => "Placement metadata: invalid partition id "@ + debug_text(key)
                + " in members"@,
        }
    }
}

impl RecordError {
    /// What the error says.
    pub fn message(&self) -> (r: String)
        ensures
            r@ == self@.text(),
    {
        let mut s: String = String::new();
        match self {
            RecordError::InvalidTableName(name) => {
                s.append("Placement metadata: invalid table name \"");
                s.append(name.as_str());
                s.append("\"");
            },
            RecordError::InvalidPartition(key) => {
                s.append("Placement metadata: invalid partition id ");
                s.append(shown(key.as_str()).as_str());
                s.append(" in members");
            },
        }
        assert(s@ =~= self@.text());
        s
    }
}

/// The first of `names` that is no table name.
pub open spec fn first_non_table(names: Seq<Seq<char>>) -> Option<Seq<char>>
    decreases names.len(),
{
    if names.len() == 0 {
        None
    } else {
        match first_non_table(names.drop_last()) {
            Some(name) => Some(name),
            None => if names::is_table_name(names.last()) {
                None
            } else {
                Some(names.last())
            },
        }
    }
}

/// The first of `keys` that is no partition number.
pub open spec fn first_non_partition(keys: Seq<Seq<char>>) -> Option<Seq<char>>
    decreases keys.len(),
{
    if keys.len() == 0 {
        None
    } else {
        match first_non_partition(keys.drop_last()) {
            Some(key) => Some(key),
            None => if text::number(keys.last(), u32::MAX as nat) is Some {
                None
            } else {
                Some(keys.last())
            },
        }
    }
}

/// What comes first in the beginning of a list comes first in the list.
proof fn lemma_first_non_table(names: Seq<Seq<char>>, n: int)
    requires
        0 <= n <= names.len(),
    ensures
        first_non_table(names.take(n)) is Some ==> first_non_table(names) == first_non_table(
            names.take(n),
        ),
    decreases names.len(),
{
    if n < names.len() {
        lemma_first_non_table(names.drop_last(), n);
        assert(names.drop_last().take(n) =~= names.take(n));
    } else {
        assert(names.take(n) =~= names);
    }
}

proof fn lemma_first_non_partition(keys: Seq<Seq<char>>, n: int)
    requires
        0 <= n <= keys.len(),
    ensures
        first_non_partition(keys.take(n)) is Some ==> first_non_partition(keys)
            == first_non_partition(keys.take(n)),
    decreases keys.len(),
{
    if n < keys.len() {
        lemma_first_non_partition(keys.drop_last(), n);
        assert(keys.drop_last().take(n) =~= keys.take(n));
    } else {
        assert(keys.take(n) =~= keys);
    }
}

proof fn lemma_all_tables(names: Seq<Seq<char>>)
    ensures
        first_non_table(names) is None <==> forall|i: int|
            0 <= i < names.len() ==> names::is_table_name(#[trigger] names[i]),
    decreases names.len(),
{
    if names.len() > 0 {
        let head = names.drop_last();
        lemma_all_tables(head);
        if forall|i: int| 0 <= i < names.len() ==> names::is_table_name(#[trigger] names[i]) {
            assert forall|i: int| 0 <= i < head.len() implies names::is_table_name(
                #[trigger] head[i],
            ) by {
                assert(names::is_table_name(names[i]));
            }
            assert(names::is_table_name(names[names.len() - 1]));
        }
        if first_non_table(names) is None {
            assert forall|i: int| 0 <= i < names.len() implies names::is_table_name(
                #[trigger] names[i],
            ) by {
                if i < head.len() {
                    assert(names::is_table_name(head[i]));
                }
            }
        }
    }
}

proof fn lemma_all_partitions(keys: Seq<Seq<char>>)
    requires
        forall|i: int|
            0 <= i < keys.len() ==> text::number(#[trigger] keys[i], u32::MAX as nat) is Some,
    ensures
        first_non_partition(keys) is None,
    decreases keys.len(),
{
    if keys.len() > 0 {
        let head = keys.drop_last();
        assert forall|i: int| 0 <= i < head.len() implies text::number(
            #[trigger] head[i],
            u32::MAX as nat,
        ) is Some by {
            assert(text::number(keys[i], u32::MAX as nat) is Some);
        }
        lemma_all_partitions(head);
        assert(text::number(keys[keys.len() - 1], u32::MAX as nat) is Some);
    }
}

/// What a transported record means.
pub open spec fn decoded(r: Record) -> Result<Placement, Fault> {
    let tables = text_map::in_order(r.table_assignments.dom());
    let keys = text_map::in_order(r.members.dom());
    match first_non_table(tables) {
        Some(name) => Err(Fault::TableName(name)),
        None => match first_non_partition(keys) {
            Some(key) => Err(Fault::Partition(key)),
            None => Ok(
                Placement {
                    source: PlacementMetadataSource::Replicated,
                    version: PlacementVersion(r.version),
                    num_partitions: r.num_partitions,
                    rules: r.table_assignments.map_values(|n: u32| PartitionId(n)),
                    members: partition::usable_members(read_members(keys, r.members)),
                },
            ),
        },
    }
}

impl SerializedPlacementMetadata {
    /// The transport form of `metadata`.
    pub fn encode(metadata: &PlacementMetadata) -> (r: Self)
        ensures
            r@ == encoded(metadata@),
    {
        let rules: TextMap<PartitionId> = metadata.table_assignments();
        let mut table_assignments: TextMap<u32> = TextMap::new();
        let n: usize = rules.len();
        let mut i: usize = 0;
        let ghost keys = text_map::in_order(rules@.dom());
        proof {
            rules.lemma_finite();
            text_map::lemma_in_order(rules@.dom());
        }
        while i < n
            invariant
                i <= n,
                n == keys.len(),
                keys == text_map::in_order(rules@.dom()),
                keys.to_set() == rules@.dom(),
                forall|k: Seq<char>| #[trigger]
                    table_assignments@.contains_key(k) ==> rules@.contains_key(k)
                        && table_assignments@[k] == rules@[k].0,
                forall|j: int| 0 <= j < i ==> table_assignments@.contains_key(#[trigger] keys[j]),
            decreases n - i,
        {
            let owner: PartitionId = *rules.value_at(i);
            table_assignments.insert(rules.key_at(i).as_str().to_owned(), owner.0);
            i = i + 1;
        }
        proof {
            assert forall|k: Seq<char>| rules@.contains_key(k) implies table_assignments@.contains_key(
                k,
            ) by {
                assert(keys.to_set().contains(k));
                let j = choose|j: int| 0 <= j < keys.len() && keys[j] == k;
                assert(table_assignments@.contains_key(keys[j]));
            }
            assert(table_assignments@ =~= rules@.map_values(|owner: PartitionId| owner.0));
        }
        let source = metadata.members();
        let numbers: Vec<u32> = ordered::keys_u32(source);
        let mut members: TextMap<Vec<String>> = TextMap::new();
        let mut j: usize = 0;
        let ghost given = partition::members_of(source@);
        while j < numbers.len()
            invariant
                j <= numbers.len(),
                given == partition::members_of(source@),
                numbers@.to_set() == source@.dom(),
                forall|k: Seq<char>| #[trigger]
                    members@.contains_key(k) ==> exists|p: u32|
                        #![trigger given.contains_key(p)]
                        given.contains_key(p) && k == text::dec(p as nat) && partition::texts(
                            members@[k]@,
                        ) == given[p],
                forall|a: int|
                    0 <= a < j ==> members@.contains_key(
                        text::dec(#[trigger] numbers@[a] as nat),
                    ),
            decreases numbers.len() - j,
        {
            let p: u32 = numbers[j];
            assert(numbers@.to_set().contains(p));
            match source.get(&p) {
                Some(addresses) => {
                    let mut key: String = String::new();
                    text::push_dec(&mut key, p as u64);
                    assert(key@ =~= text::dec(p as nat));
                    assert(given.contains_key(p));
                    members.insert(key, partition::copy_strings(addresses));
                },
                None => {},
            }
            j = j + 1;
        }
        let r = SerializedPlacementMetadata {
            version: metadata.version().0,
            num_partitions: metadata.num_partitions(),
            table_assignments,
            members,
        };
        proof {
            let want = keyed_by_text(given);
            let got = listed_members(members@);
            assert forall|k: Seq<char>| #[trigger] got.contains_key(k) == want.contains_key(k) by {
                if want.contains_key(k) {
                    let p = choose|p: u32| #[trigger]
                        given.contains_key(p) && k == text::dec(p as nat);
                    assert(numbers@.to_set().contains(p));
                    let a = choose|a: int| 0 <= a < numbers@.len() && numbers@[a] == p;
                    assert(members@.contains_key(text::dec(numbers@[a] as nat)));
                }
                if members@.contains_key(k) {
                    let p = choose|p: u32|
                        #![trigger given.contains_key(p)]
                        given.contains_key(p) && k == text::dec(p as nat) && partition::texts(
                            members@[k]@,
                        ) == given[p];
                    assert(given.contains_key(p) && k == text::dec(p as nat));
                }
            }
            assert forall|k: Seq<char>| got.contains_key(k) implies #[trigger] got[k] == want[k] by {
                assert(members@.contains_key(k));
                let p = choose|p: u32|
                    #![trigger given.contains_key(p)]
                    given.contains_key(p) && k == text::dec(p as nat) && partition::texts(
                        members@[k]@,
                    ) == given[p];
                assert(given.contains_key(p) && k == text::dec(p as nat));
                text::lemma_value_of_dec(p as nat);
            }
            assert(listed_members(members@) =~= want);
            assert(r@ =~= encoded(metadata@));
        }
        r
    }

    /// The metadata that a transported record means.
    pub fn decode(self) -> (r: Result<PlacementMetadata, RecordError>)
        ensures
            match r {
                Ok(m) => decoded(self@) == Ok::<Placement, Fault>(m@),
                Err(e) => decoded(self@) == Err::<Placement, Fault>(e@),
            },
    {
        let mut assignments: Vec<(TableName, PartitionId)> = Vec::new();
        let n: usize = self.table_assignments.len();
        let ghost tables = text_map::in_order(self.table_assignments@.dom());
        let ghost given = self@;
        proof {
            self.table_assignments.lemma_finite();
            self.members.lemma_finite();
            text_map::lemma_in_order(self.table_assignments@.dom());
            text_map::lemma_in_order(self.members@.dom());
            assert(given.members.dom() =~= self.members@.dom());
        }
        let mut i: usize = 0;
        assert(partition::assigned(assignments@) =~= Map::empty());
        while i < n
            invariant
                i <= n,
                n == tables.len(),
                given == self@,
                tables == text_map::in_order(self.table_assignments@.dom()),
                tables.to_set() == self.table_assignments@.dom(),
                first_non_table(tables.take(i as int)) is None,
                forall|t: Seq<char>| #[trigger]
                    partition::assigned(assignments@).contains_key(t)
                        ==> given.table_assignments.contains_key(t) && partition::assigned(
                        assignments@,
                    )[t] == PartitionId(given.table_assignments[t]),
                forall|j: int|
                    0 <= j < i ==> partition::assigned(assignments@).contains_key(
                        #[trigger] tables[j],
                    ),
            decreases n - i,
        {
            let owner: u32 = *self.table_assignments.value_at(i);
            assert(tables.take(i + 1).drop_last() =~= tables.take(i as int));
            match TableName::parse(self.table_assignments.key_at(i).as_str()) {
                Some(table) => {
                    let ghost before = assignments@;
                    let ghost t = table@;
                    assignments.push((table, PartitionId(owner)));
                    proof {
                        assert(assignments@.drop_last() =~= before);
                        assert(t == tables[i as int]);
                        assert(given.table_assignments.contains_key(t));
                        assert(partition::assigned(assignments@) == partition::assigned(
                            before,
                        ).insert(t, PartitionId(owner)));
                        assert forall|j: int| 0 <= j < i + 1 implies partition::assigned(
                            assignments@,
                        ).contains_key(#[trigger] tables[j]) by {}
                    }
                },
                None => {
                    proof {
                        lemma_first_non_table(tables, i + 1);
                    }
                    return Err(
                        RecordError::InvalidTableName(
                            self.table_assignments.key_at(i).as_str().to_owned(),
                        ),
                    );
                },
            }
            i = i + 1;
        }
        proof {
            assert(tables.take(i as int) =~= tables);
            lemma_all_tables(tables);
            assert forall|t: Seq<char>| #[trigger]
                given.table_assignments.contains_key(t) implies names::is_table_name(t)
                && partition::assigned(assignments@).contains_key(t) by {
                assert(tables.to_set().contains(t));
                let j = choose|j: int| 0 <= j < tables.len() && tables[j] == t;
                assert(names::is_table_name(tables[j]));
            }
            assert(partition::assigned(assignments@) =~= given.table_assignments.map_values(
                |n: u32| PartitionId(n),
            ));
        }
        let k: usize = self.members.len();
        let ghost keys = text_map::in_order(given.members.dom());
        let mut members: BTreeMap<u32, Vec<String>> = BTreeMap::new();
        let mut m: usize = 0;
        assert(keys.take(0) =~= seq![]);
        assert(partition::members_of(members@) =~= Map::empty());
        while m < k
            invariant
                m <= k,
                k == keys.len(),
                given == self@,
                given.members.dom() == self.members@.dom(),
                keys == text_map::in_order(given.members.dom()),
                keys.to_set() == given.members.dom(),
                first_non_partition(keys.take(m as int)) is None,
                first_non_table(text_map::in_order(given.table_assignments.dom())) is None,
                partition::members_of(members@) == read_members(keys.take(m as int), given.members),
            decreases k - m,
        {
            proof {
                let longer = keys.take(m + 1);
                assert(longer.drop_last() =~= keys.take(m as int));
                assert(longer.last() == keys[m as int]);
            }
            let addresses: Vec<String> = partition::copy_strings(self.members.value_at(m));
            match text::parse_number(self.members.key_at(m).as_str(), u32::MAX as u64) {
                Some(p) => {
                    let ghost before = members@;
                    let ghost a = partition::texts(addresses@);
                    members.insert(p as u32, addresses);
                    proof {
                        assert(given.members.contains_key(keys[m as int]));
                        assert(partition::members_of(members@) =~= partition::members_of(
                            before,
                        ).insert(p as u32, a));
                    }
                },
                None => {
                    proof {
                        lemma_first_non_partition(keys, m + 1);
                    }
                    return Err(
                        RecordError::InvalidPartition(self.members.key_at(m).as_str().to_owned()),
                    );
                },
            }
            m = m + 1;
        }
        proof {
            assert(keys.take(m as int) =~= keys);
        }
        Ok(
            PlacementMetadata::from_table_assignments(
                PlacementMetadataSource::Replicated,
                PlacementVersion::new(self.version),
                self.num_partitions,
                assignments,
            ).with_members(members),
        )
    }
}

/// Among decimal keys, a partition is listed exactly under its own notation.
proof fn lemma_read_members(
    keys: Seq<Seq<char>>,
    given: Map<u32, Seq<Seq<char>>>,
)
    requires
        forall|i: int| 0 <= i < keys.len() ==> keyed_by_text(given).contains_key(#[trigger] keys[i]),
    ensures
        forall|p: u32| #[trigger]
            read_members(keys, keyed_by_text(given)).contains_key(p) ==> given.contains_key(p)
                && read_members(keys, keyed_by_text(given))[p] == given[p],
        forall|i: int|
            0 <= i < keys.len() ==> read_members(keys, keyed_by_text(given)).contains_key(
                text::value_of(#[trigger] keys[i]) as u32,
            ),
    decreases keys.len(),
{
    if keys.len() > 0 {
        let head = keys.drop_last();
        let m = keyed_by_text(given);
        assert forall|i: int| 0 <= i < head.len() implies m.contains_key(#[trigger] head[i]) by {
            assert(m.contains_key(keys[i]));
        }
        lemma_read_members(head, given);
        let k = keys.last();
        assert(m.contains_key(keys[keys.len() - 1]));
        let p = choose|p: u32| #[trigger] given.contains_key(p) && k == text::dec(p as nat);
        text::lemma_number_of_dec(p as nat, u32::MAX as nat);
        text::lemma_value_of_dec(p as nat);
        let r = read_members(keys, m);
        assert(r == read_members(head, m).insert(p, m[k]));
        assert forall|i: int| 0 <= i < keys.len() implies r.contains_key(
            text::value_of(#[trigger] keys[i]) as u32,
        ) by {
            if i < head.len() {
                assert(read_members(head, m).contains_key(text::value_of(head[i]) as u32));
            }
        }
    }
}

/// Transporting a record keeps version, partitions, ownership and membership;
/// what arrives is marked as replicated.
pub proof fn transport_round_trips(p: Placement)
    requires
        partition::names_tables(p.rules),
        p.rules.dom().finite(),
        p.members.dom().finite(),
        partition::usable_members(p.members) == p.members,
    ensures
        decoded(encoded(p)) == Ok::<Placement, Fault>(
            Placement { source: PlacementMetadataSource::Replicated, ..p },
        ),
{
    let r = encoded(p);
    assert forall|k: Seq<char>| #[trigger] r.members.contains_key(k) implies text::number(
        k,
        u32::MAX as nat,
    ) is Some by {
        let n = choose|n: u32| #[trigger] p.members.contains_key(n) && k == text::dec(n as nat);
        text::lemma_number_of_dec(n as nat, u32::MAX as nat);
    }
    let f = |n: u32| text::dec(n as nat);
    assert(r.members.dom() =~= p.members.dom().map(f)) by {
        assert forall|k: Seq<char>| r.members.dom().contains(k) == p.members.dom().map(
            f,
        ).contains(k) by {
            if r.members.dom().contains(k) {
                let n = choose|n: u32| #[trigger]
                    p.members.contains_key(n) && k == text::dec(n as nat);
                assert(p.members.dom().contains(n) && f(n) == k);
            }
            if p.members.dom().map(f).contains(k) {
                let n = choose|n: u32| p.members.dom().contains(n) && f(n) == k;
                assert(p.members.contains_key(n));
            }
        }
    }
    p.members.dom().lemma_map_finite(f);
    text_map::lemma_in_order(r.members.dom());
    let keys = text_map::in_order(r.members.dom());
    assert forall|i: int| 0 <= i < keys.len() implies keyed_by_text(p.members).contains_key(
        #[trigger] keys[i],
    ) by {
        assert(keys.to_set().contains(keys[i]));
    }
    assert forall|i: int| 0 <= i < keys.len() implies text::number(
        #[trigger] keys[i],
        u32::MAX as nat,
    ) is Some by {
        assert(r.members.contains_key(keys[i]));
    }
    lemma_all_partitions(keys);
    let tables = text_map::in_order(r.table_assignments.dom());
    assert(r.table_assignments.dom() =~= p.rules.dom());
    text_map::lemma_in_order(r.table_assignments.dom());
    assert forall|i: int| 0 <= i < tables.len() implies names::is_table_name(
        #[trigger] tables[i],
    ) by {
        assert(tables.to_set().contains(tables[i]));
        assert(p.rules.contains_key(tables[i]));
    }
    lemma_all_tables(tables);
    lemma_read_members(keys, p.members);
    let got = read_members(keys, r.members);
    assert forall|n: u32| p.members.contains_key(n) implies got.contains_key(n) by {
        let k = text::dec(n as nat);
        assert(r.members.contains_key(k));
        assert(keys.to_set().contains(k));
        let i = choose|i: int| 0 <= i < keys.len() && keys[i] == k;
        assert(got.contains_key(text::value_of(keys[i]) as u32));
        text::lemma_value_of_dec(n as nat);
    }
    assert(got =~= p.members);
    assert(r.table_assignments.map_values(|n: u32| PartitionId(n)) =~= p.rules);
}

/// Membership that was cleaned once stays as it is.
pub proof fn cleaning_membership_is_idempotent(members: Map<u32, Seq<Seq<char>>>)
    ensures
        partition::usable_members(partition::usable_members(members)) == partition::usable_members(
            members,
        ),
{
    let once = partition::usable_members(members);
    assert forall|p: u32| once.contains_key(p) implies partition::usable(once[p]) == once[p] by {
        partition::lemma_usable_idempotent(members[p]);
    }
    assert(partition::usable_members(once) =~= once);
}

/// A routing node never moves to an older placement version.
pub proof fn refresh_never_downgrades(local: PartitionId, current: Placement, next: Placement)
    requires
        checked_refresh(local, current, next) is Ok,
    ensures
        next.version.0 >= current.version.0,
        local.0 < next.num_partitions,
{
}

/// Of two records published one after the other, the later one has the greater
/// version.
pub proof fn published_versions_increase(current: Placement, next: Placement)
    requires
        checked_publish(Some(current), next) is Ok,
    ensures
        next.version.0 > current.version.0,
{
}

/// A placement is taken on exactly where the node has a partition in it and it is
/// not older than the one in use.
pub proof fn placements_are_taken_on_unless_older(local: PartitionId, current: Placement, next: Placement)
    ensures
        checked_refresh(local, current, next) is Ok <==> local.0 < next.num_partitions
            && next.version.0 >= current.version.0,
        local.0 >= next.num_partitions ==> checked_refresh(local, current, next) == Err::<
            (),
            PlacementError,
        >(PlacementError::LocalOutside { local, num_partitions: next.num_partitions }),
        local.0 < next.num_partitions && next.version.0 < current.version.0 ==> checked_refresh(
            local,
            current,
            next,
        ) == Err::<(), PlacementError>(
            PlacementError::Downgrade { current: current.version, requested: next.version },
        ),
{
}

/// The first placement can always be published, and later ones exactly where they
/// are newer.
pub proof fn newer_placements_are_published(current: Placement, next: Placement)
    ensures
        checked_publish(None, next) is Ok,
        checked_publish(Some(current), next) is Ok <==> next.version.0 > current.version.0,
{
}

/// A placement on its way says what it said: the same version and number of
/// partitions, each table with its owner, and each partition with its members.
pub proof fn encoded_placements_say_the_same(p: Placement, table: Seq<char>, partition: u32)
    ensures
        encoded(p).version == p.version.0,
        encoded(p).num_partitions == p.num_partitions,
        encoded(p).table_assignments.contains_key(table) <==> p.rules.contains_key(table),
        p.rules.contains_key(table) ==> encoded(p).table_assignments[table] == p.rules[table].0,
        p.members.contains_key(partition) ==> encoded(p).members.contains_key(
            text::dec(partition as nat),
        ) && encoded(p).members[text::dec(partition as nat)] == p.members[partition],
{
    if p.members.contains_key(partition) {
        text::lemma_value_of_dec(partition as nat);
    }
}

proof fn lemma_all_are_tables(names: Seq<Seq<char>>, i: int)
    requires
        first_non_table(names) is None,
        0 <= i < names.len(),
    ensures
        names::is_table_name(names[i]),
    decreases names.len(),
{
    if i < names.len() - 1 {
        assert(names.drop_last()[i] == names[i]);
        lemma_all_are_tables(names.drop_last(), i);
    }
}

proof fn lemma_non_table_found(names: Seq<Seq<char>>)
    requires
        first_non_table(names) is Some,
    ensures
        names.contains(first_non_table(names)->0),
        !names::is_table_name(first_non_table(names)->0),
    decreases names.len(),
{
    let front = names.drop_last();
    if first_non_table(front) is Some {
        lemma_non_table_found(front);
        let k = choose|k: int| 0 <= k < front.len() && front[k] == first_non_table(front)->0;
        assert(names[k] == front[k]);
    } else {
        assert(names[names.len() - 1] == names.last());
    }
}

proof fn lemma_all_are_partitions(keys: Seq<Seq<char>>, i: int)
    requires
        first_non_partition(keys) is None,
        0 <= i < keys.len(),
    ensures
        text::number(keys[i], u32::MAX as nat) is Some,
    decreases keys.len(),
{
    if i < keys.len() - 1 {
        assert(keys.drop_last()[i] == keys[i]);
        lemma_all_are_partitions(keys.drop_last(), i);
    }
}

proof fn lemma_non_partition_found(keys: Seq<Seq<char>>)
    requires
        first_non_partition(keys) is Some,
    ensures
        keys.contains(first_non_partition(keys)->0),
        text::number(first_non_partition(keys)->0, u32::MAX as nat) is None,
    decreases keys.len(),
{
    let front = keys.drop_last();
    if first_non_partition(front) is Some {
        lemma_non_partition_found(front);
        let k = choose|k: int| 0 <= k < front.len() && front[k] == first_non_partition(front)->0;
        assert(keys[k] == front[k]);
    } else {
        assert(keys[keys.len() - 1] == keys.last());
    }
}

/// A placement that arrives is refused exactly where it names something that is no
/// table or lists members for something that is no partition, and says which;
/// otherwise it has the version, the partitions and the owners that it arrived with.
pub proof fn arriving_placements_are_checked(r: Record, table: Seq<char>, key: Seq<char>)
    requires
        r.table_assignments.dom().finite(),
        r.members.dom().finite(),
    ensures
        match decoded(r) {
            Ok(p) => {
                &&& p.source == PlacementMetadataSource::Replicated
                &&& p.version.0 == r.version
                &&& p.num_partitions == r.num_partitions
                &&& p.rules.contains_key(table) <==> r.table_assignments.contains_key(table)
                &&& r.table_assignments.contains_key(table) ==> p.rules[table].0
                    == r.table_assignments[table] && names::is_table_name(table)
                &&& r.members.contains_key(key) ==> text::number(key, 0xffff_ffff) is Some
            },
            Err(Fault::TableName(name)) => r.table_assignments.contains_key(name)
                && !names::is_table_name(name),
            Err(Fault::Partition(k)) => r.members.contains_key(k) && text::number(
                k,
                0xffff_ffff,
            ) is None,
        },
{
    let tables = text_map::in_order(r.table_assignments.dom());
    let keys = text_map::in_order(r.members.dom());
    text_map::lemma_in_order(r.table_assignments.dom());
    text_map::lemma_in_order(r.members.dom());
    if first_non_table(tables) is Some {
        lemma_non_table_found(tables);
        assert(tables.to_set().contains(first_non_table(tables)->0));
    } else if first_non_partition(keys) is Some {
        lemma_non_partition_found(keys);
        assert(keys.to_set().contains(first_non_partition(keys)->0));
    } else {
        if r.table_assignments.contains_key(table) {
            assert(tables.to_set().contains(table));
            let i = choose|i: int| 0 <= i < tables.len() && tables[i] == table;
            lemma_all_are_tables(tables, i);
        }
        if r.members.contains_key(key) {
            assert(keys.to_set().contains(key));
            let i = choose|i: int| 0 <= i < keys.len() && keys[i] == key;
            lemma_all_are_partitions(keys, i);
        }
    }
}

/// A placement that replaces another leaves the node in its partition.
pub proof fn replacing_keeps_the_partition(
    before: Option<(PartitionId, Placement)>,
    after: Option<(PartitionId, Placement)>,
    next: Placement,
)
    requires
        replaced(before, after, next),
    ensures
        before is Some,
        after is Some,
        before matches Some((local, _)) ==> after == Some((local, next)),
{
}

} // verus!
