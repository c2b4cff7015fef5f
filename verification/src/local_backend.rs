//! What a node runs, given how it is configured.
//!
//! A node is a lone node, a read replica, or the owner of one of several
//! partitions. Each part of the start of a node that depends on this is decided
//! by a function of the configuration, and errors are said here; whoever starts
//! the node acts on what the functions say.
use crate::committer::{RaftState, MIN_TIMESTAMP};
use crate::metrics;
use crate::metrics::MetricsRecorder;
use crate::nats_distributed_log;
use crate::nats_distributed_log::{NatsConfig, NatsDistributedLog};
use crate::ordered;
use crate::partition;
use crate::partition::{
    PartitionId, PartitionMap, Placement, PlacementMetadata, PlacementMetadataSource, PlacementVersion,
    StaticPlacementConfig,
};
use crate::selective_delivery;
use crate::text;
use crate::two_phase::NodeAddresses;
use std::collections::BTreeMap;
use vstd::prelude::*;
use vstd::string::*;

verus! {

broadcast use {vstd::std_specs::btree::group_btree_axioms, vstd::laws_cmp::group_laws_cmp};

/// The partition whose leader runs what the cluster runs once.
pub const CLUSTER_COORDINATOR_PARTITION: u32 = 0;

/// How often it is checked who runs what the cluster runs once, in milliseconds.
pub const WORKER_AUTHORITY_INTERVAL_MS: u64 = 250;

/// How often a node publishes its interests when they do not change, in seconds.
pub const INTEREST_REFRESH_SECS: u64 = 30;

/// The first wait before a consumer is started again, in milliseconds.
pub const CONSUMER_BACKOFF_MS: u64 = 250;

/// The longest wait before a consumer is started again, in milliseconds.
pub const MAX_CONSUMER_BACKOFF_MS: u64 = 30_000;

/// After how many ticks without a leader an election is held.
pub const RAFT_ELECTION_TICK: usize = 10;

/// After how many ticks a leader sends heartbeats.
pub const RAFT_HEARTBEAT_TICK: usize = 3;

/// The parts of the configuration that decide what a node runs.
#[derive(Debug)]
pub struct LocalConfig {
    pub name: String,
    pub replication_mode: String,
    pub nats_url: Option<String>,
    pub partition_id: Option<u32>,
    pub num_partitions: Option<u32>,
    pub partition_map: Option<String>,
    pub partition_map_version: Option<u64>,
    pub primary_grpc_url: Option<String>,
    pub checkpoint_storage_path: Option<String>,
    pub replica_storage_path: Option<String>,
    pub disable_beacon: bool,
    pub raft_node_id: Option<u64>,
    pub raft_peers: Option<String>,
    /// Whether a node may rely on being sent what it is interested in.
    pub trust_interest: bool,
}

/// Why a node could not be started.
#[derive(Debug)]
pub enum StartupError {
    /// A fresh replica has no place to look for a checkpoint.
    NoCheckpointPath,
    /// There is no checkpoint where a fresh replica looks for one.
    NoCheckpoint { path: String },
    /// A replica has no place for its files.
    NoReplicaStorage,
    /// A primary that is replicated has no place for checkpoints.
    NoCheckpointerPath,
}

impl StartupError {
    /// What the error says.
    pub open spec fn text(self) -> Seq<char> {
        match self {
            StartupError::NoCheckpointPath =>
                "CHECKPOINT_STORAGE_PATH is required to bootstrap a fresh replica from checkpoint"@,
            StartupError::NoCheckpoint { path } =>
                "Fresh replica startup requires a checkpoint, but none was found at "@ + path@,
            StartupError::NoReplicaStorage => "REPLICA_STORAGE_PATH is required in replica mode"@,
            StartupError::NoCheckpointerPath =>
                "CHECKPOINT_STORAGE_PATH is required in primary mode with NATS_URL"@,
        }
    }

    /// What the error says.
    pub fn message(&self) -> (r: String)
        ensures
            r@ == self.text(),
    {
        let mut s: String = String::new();
        match self {
            StartupError::NoCheckpointPath => {
                s.append(
                    "CHECKPOINT_STORAGE_PATH is required to bootstrap a fresh replica from checkpoint",
                );
            },
            StartupError::NoCheckpoint { path } => {
                s.append("Fresh replica startup requires a checkpoint, but none was found at ");
                s.append(path.as_str());
            },
            StartupError::NoReplicaStorage => {
                s.append("REPLICA_STORAGE_PATH is required in replica mode");
            },
            StartupError::NoCheckpointerPath => {
                s.append("CHECKPOINT_STORAGE_PATH is required in primary mode with NATS_URL");
            },
        }
        assert(s@ =~= self.text());
        s
    }
}

/// An optional text.
pub open spec fn text_of(s: Option<String>) -> Option<Seq<char>> {
    match s {
        Some(s) => Some(s@),
        None => None,
    }
}

/// An optional text.
pub open spec fn str_of(s: Option<&str>) -> Option<Seq<char>> {
    match s {
        Some(s) => Some(s@),
        None => None,
    }
}

fn as_str(s: &Option<String>) -> (r: Option<&str>)
    ensures
        str_of(r) == text_of(*s),
{
    match s {
        Some(s) => Some(s.as_str()),
        None => None,
    }
}

/// How a consumer of the log is connected, as contracts speak of it.
#[verifier::ext_equal]
pub struct Connection {
    pub url: Seq<char>,
    pub consumer: Option<Seq<char>>,
    pub partition: Option<u32>,
}

/// How a consumer of the log is connected.
pub open spec fn connection(config: NatsConfig) -> Connection {
    Connection {
        url: config.url@,
        consumer: text_of(config.consumer_name),
        partition: config.partition_id,
    }
}

fn connection_to(url: &str, name: &str, suffix: &str, partition_id: Option<u32>) -> (r: NatsConfig)
    ensures
        connection(r) == (Connection {
            url: url@,
            consumer: Some(name@ + suffix@),
            partition: partition_id,
        }),
{
    let mut consumer: String = String::new();
    consumer.append(name);
    consumer.append(suffix);
    assert(consumer@ =~= name@ + suffix@);
    NatsConfig { url: url.to_owned(), consumer_name: Some(consumer), partition_id }
}

impl LocalConfig {
    /// The node is a read replica.
    pub open spec fn replica(self) -> bool {
        self.replication_mode@ == "replica"@
    }

    /// The node is a read replica.
    pub fn is_replica(&self) -> (r: bool)
        ensures
            r == self.replica(),
    {
        text::same(self.replication_mode.as_str(), "replica")
    }

    /// How the node publishes its commits; a node without a log publishes none.
    pub fn distributed_log(&self) -> (r: Option<NatsConfig>)
        ensures
            match r {
                Some(c) => self.nats_url is Some && connection(c) == (Connection {
                    url: self.nats_url->0@,
                    consumer: Some(self.name@),
                    partition: self.partition_id,
                }),
                None => self.nats_url is None,
            },
    {
        match &self.nats_url {
            Some(url) => {
                proof {
                    reveal_strlit("");
                    assert(self.name@ + ""@ =~= self.name@);
                }
                Some(connection_to(url.as_str(), self.name.as_str(), "", self.partition_id))
            },
            None => None,
        }
    }

    /// Where the services that partitions share are: the timestamp oracle, the
    /// allocator of table numbers, the log of two-phase decisions and the watcher
    /// of two-phase transactions. A node that owns everything uses its own clock
    /// and numbers and has no two-phase transactions.
    pub fn shared_services(&self) -> (r: Option<&str>)
        ensures
            str_of(r) == (if self.partition_id is Some {
                text_of(self.nats_url)
            } else {
                None
            }),
    {
        match self.partition_id {
            Some(_) => as_str(&self.nats_url),
            None => None,
        }
    }

    /// Where a replica sends mutations.
    pub fn mutation_forwarding(&self) -> (r: Option<&str>)
        ensures
            str_of(r) == (if self.replica() {
                text_of(self.primary_grpc_url)
            } else {
                None
            }),
    {
        if self.is_replica() {
            as_str(&self.primary_grpc_url)
        } else {
            None
        }
    }

    /// The placement that the configuration describes.
    pub open spec fn placement(self) -> Placement {
        Placement {
            source: PlacementMetadataSource::StaticConfig,
            version: PlacementVersion(
                match self.partition_map_version {
                    Some(v) => v,
                    None => 0,
                },
            ),
            num_partitions: match self.num_partitions {
                Some(n) => n,
                None => 1,
            },
            rules: partition::rules_in(
                text::pieces(
                    match self.partition_map {
                        Some(m) => m@,
                        None => ""@,
                    },
                    ',',
                ),
            ),
            members: Map::empty(),
        }
    }

    /// The placement that a partitioned node starts with.
    pub fn static_placement(&self) -> (r: Option<PlacementMetadata>)
        ensures
            match r {
                Some(m) => self.partition_id is Some && m@ == self.placement(),
                None => self.partition_id is None,
            },
    {
        if self.partition_id.is_none() {
            return None;
        }
        let table_assignments: &str = match &self.partition_map {
            Some(m) => m.as_str(),
            None => "",
        };
        let num_partitions: u32 = match self.num_partitions {
            Some(n) => n,
            None => 1,
        };
        let version: u64 = match self.partition_map_version {
            Some(v) => v,
            None => 0,
        };
        Some(
            PlacementMetadata::from_static_config(
                StaticPlacementConfig {
                    table_assignments,
                    num_partitions,
                    placement_version: PlacementVersion::new(version),
                },
            ),
        )
    }

    /// The routing that a partitioned node starts with.
    pub fn static_partition_map(&self) -> (r: Option<PartitionMap>)
        ensures
            match r {
                Some(m) => self.partition_id is Some && m@ == self.placement().routing(
                    PartitionId(self.partition_id->0),
                ),
                None => self.partition_id is None,
            },
    {
        match (self.partition_id, self.static_placement()) {
            (Some(id), Some(m)) => Some(m.into_partition_map(PartitionId(id))),
            _ => None,
        }
    }

    /// Where the cluster's placement is kept, with what to put there if it is
    /// empty.
    pub fn placement_store(&self) -> (r: Option<(&str, PlacementMetadata)>)
        ensures
            match r {
                Some((url, m)) => self.partition_id is Some && text_of(self.nats_url) == Some(url@)
                    && m@ == self.placement(),
                None => self.partition_id is None || self.nats_url is None,
            },
    {
        match (self.static_placement(), as_str(&self.nats_url)) {
            (Some(m), Some(url)) => Some((url, m)),
            _ => None,
        }
    }

    /// Where a fresh replica looks for the checkpoint it starts from. Other nodes
    /// start from what they have.
    pub fn checkpoint_to_install(&self, persistence_was_fresh: bool) -> (r: Result<
        Option<&str>,
        StartupError,
    >)
        ensures
            if self.replica() && persistence_was_fresh {
                match self.checkpoint_storage_path {
                    Some(path) => r matches Ok(Some(p)) && p@ == path@,
                    None => r == Err::<Option<&str>, StartupError>(StartupError::NoCheckpointPath),
                }
            } else {
                r == Ok::<Option<&str>, StartupError>(None)
            },
    {
        if !(self.is_replica() && persistence_was_fresh) {
            return Ok(None);
        }
        match &self.checkpoint_storage_path {
            Some(path) => Ok(Some(path.as_str())),
            None => Err(StartupError::NoCheckpointPath),
        }
    }

    /// Where a replica keeps its files. Other nodes keep theirs where the
    /// database says.
    pub fn replica_storage(&self) -> (r: Result<Option<&str>, StartupError>)
        ensures
            if self.replica() {
                match self.replica_storage_path {
                    Some(path) => r matches Ok(Some(p)) && p@ == path@,
                    None => r == Err::<Option<&str>, StartupError>(StartupError::NoReplicaStorage),
                }
            } else {
                r == Ok::<Option<&str>, StartupError>(None)
            },
    {
        if !self.is_replica() {
            return Ok(None);
        }
        match &self.replica_storage_path {
            Some(path) => Ok(Some(path.as_str())),
            None => Err(StartupError::NoReplicaStorage),
        }
    }

    /// Where a replicated primary keeps checkpoints.
    pub fn checkpointer(&self) -> (r: Result<Option<&str>, StartupError>)
        ensures
            if self.replication_mode@ == "primary"@ && self.nats_url is Some {
                match self.checkpoint_storage_path {
                    Some(path) => r matches Ok(Some(p)) && p@ == path@,
                    None => r == Err::<Option<&str>, StartupError>(StartupError::NoCheckpointerPath),
                }
            } else {
                r == Ok::<Option<&str>, StartupError>(None)
            },
    {
        if !(text::same(self.replication_mode.as_str(), "primary") && self.nats_url.is_some()) {
            return Ok(None);
        }
        match &self.checkpoint_storage_path {
            Some(path) => Ok(Some(path.as_str())),
            None => Err(StartupError::NoCheckpointerPath),
        }
    }

    /// Whether the node reports that it is running.
    pub fn runs_beacon(&self) -> (r: bool)
        ensures
            r == !self.disable_beacon,
    {
        !self.disable_beacon
    }

    /// Where the node publishes its interests.
    pub fn interest_publisher(&self) -> (r: Option<&str>)
        ensures
            str_of(r) == text_of(self.nats_url),
    {
        as_str(&self.nats_url)
    }

    /// How the first partition watches what selective delivery would send it.
    pub fn shadow_consumer(&self) -> (r: Option<NatsConfig>)
        ensures
            match r {
                Some(c) => self.partition_id == Some(0u32) && self.nats_url is Some && connection(c)
                    == (Connection {
                    url: self.nats_url->0@,
                    consumer: Some(self.name@ + "-selective-shadow"@),
                    partition: None,
                }),
                None => self.partition_id != Some(0u32) || self.nats_url is None,
            },
    {
        match (self.partition_id, &self.nats_url) {
            (Some(id), Some(url)) => if id == 0 {
                Some(
                    connection_to(url.as_str(), self.name.as_str(), "-selective-shadow", None),
                )
            } else {
                None
            },
            _ => None,
        }
    }

    /// The node relies on being sent what it is interested in.
    pub open spec fn selective(self) -> bool {
        self.trust_interest && (self.partition_id matches Some(id) && id != 0)
    }

    /// Whether the node relies on being sent what it is interested in. It has to
    /// be told to; otherwise it listens to all that other partitions publish.
    pub fn uses_selective_node_targeting(&self) -> (r: bool)
        ensures
            r == self.selective(),
    {
        match self.partition_id {
            Some(id) => self.trust_interest && id != 0,
            None => false,
        }
    }

    /// The other partitions, of which there are `known` where the configuration
    /// does not say how many there are.
    pub open spec fn others(self, known: Seq<PartitionId>) -> Option<Seq<PartitionId>> {
        match self.partition_id {
            Some(local) => Some(
                without_partition(
                    match self.num_partitions {
                        Some(n) => Seq::new(n as nat, |i: int| PartitionId(i as u32)),
                        None => known,
                    },
                    PartitionId(local),
                ),
            ),
            None => None,
        }
    }

    /// The partitions whose commits the node consumes: all others. How many there
    /// are comes from the configuration, or else from the addresses of the nodes.
    /// A node that is no partition consumes all commits.
    pub fn remote_partitions(&self, addresses: Option<&NodeAddresses>) -> (r: Option<Vec<PartitionId>>)
        ensures
            match r {
                Some(p) => self.others(known_partitions(addresses)) == Some(p@),
                None => self.partition_id is None,
            },
    {
        let local: PartitionId = match self.partition_id {
            Some(id) => PartitionId(id),
            None => {
                return None;
            },
        };
        let mut all: Vec<PartitionId> = Vec::new();
        match self.num_partitions {
            Some(n) => {
                let mut i: u32 = 0;
                assert(all@ =~= Seq::new(0, |i: int| PartitionId(i as u32)));
                while i < n
                    invariant
                        i <= n,
                        all@ == Seq::new(i as nat, |i: int| PartitionId(i as u32)),
                    decreases n - i,
                {
                    all.push(PartitionId(i));
                    i += 1;
                    assert(all@ =~= Seq::new(i as nat, |i: int| PartitionId(i as u32)));
                }
            },
            None => {
                if let Some(addresses) = addresses {
                    all = addresses.partitions();
                }
                assert(all@ =~= known_partitions(addresses));
            },
        }
        Some(drop_partition(&all, local))
    }

    /// How the node consumes what other nodes commit. Replicas and partitions do;
    /// a lone node does not.
    pub fn delta_consumer(&self, addresses: Option<&NodeAddresses>, local_snapshot_ts: u64) -> (r: Option<
        DeltaConsumer,
    >)
        ensures
            match r {
                Some(c) => {
                    &&& self.replica() || self.partition_id is Some
                    &&& self.nats_url is Some
                    &&& c.selective == self.selective()
                    &&& c.from_ts == start_ts(local_snapshot_ts, self.partition_id)
                    &&& connection(c.connection) == (Connection {
                        url: self.nats_url->0@,
                        consumer: Some(
                            if self.selective() {
                                self.name@ + "-selective"@
                            } else {
                                self.name@
                            },
                        ),
                        partition: None,
                    })
                    &&& partition::texts(c.subjects@) == self.consumed(known_partitions(addresses))
                },
                None => !(self.replica() || self.partition_id is Some) || self.nats_url is None,
            },
    {
        if !(self.is_replica() || self.partition_id.is_some()) {
            return None;
        }
        let url: &String = match &self.nats_url {
            Some(url) => url,
            None => {
                return None;
            },
        };
        let selective: bool = self.uses_selective_node_targeting();
        let subjects: Vec<String> = if selective {
            NatsDistributedLog::selective_node_subjects(self.name.as_str())
        } else {
            let partitions = self.remote_partitions(addresses);
            NatsDistributedLog::filter_subjects(&partitions)
        };
        proof {
            reveal_strlit("");
            assert(self.name@ + ""@ =~= self.name@);
        }
        let suffix: &str = if selective {
            "-selective"
        } else {
            ""
        };
        Some(
            DeltaConsumer {
                connection: connection_to(url.as_str(), self.name.as_str(), suffix, None),
                subjects,
                from_ts: replica_delta_consumer_start_ts(local_snapshot_ts, self.partition_id),
                selective,
            },
        )
    }

    /// The subjects that the node consumes; none stands for all.
    pub open spec fn consumed(self, known: Seq<PartitionId>) -> Seq<Seq<char>> {
        if self.selective() {
            seq![
                selective_delivery::subject_of(self.name@),
                nats_distributed_log::SYSTEM_TABLE_SUBJECT@,
                nats_distributed_log::FRONTIER_HEARTBEAT_SUBJECT@,
            ]
        } else {
            match self.others(known) {
                Some(p) => Seq::new(
                    p.len(),
                    |i: int| nats_distributed_log::partition_subject_text(p[i].0),
                ),
                None => Seq::empty(),
            }
        }
    }

    /// The Raft group that the node joins: that of its partition, or of the first
    /// where it has none.
    pub fn raft_group(&self) -> (r: Option<RaftGroup>)
        ensures
            match r {
                Some(g) => {
                    &&& self.raft_node_id == Some(g.node_id)
                    &&& self.raft_peers is Some
                    &&& g.partition == PartitionId(
                        match self.partition_id {
                            Some(p) => p,
                            None => 0,
                        },
                    )
                    &&& peers_of(g.peers@) == peers_in(text::pieces(self.raft_peers->0@, ','))
                },
                None => self.raft_node_id is None || self.raft_peers is None,
            },
    {
        match (self.raft_node_id, &self.raft_peers) {
            (Some(node_id), Some(peers)) => {
                let partition: u32 = match self.partition_id {
                    Some(p) => p,
                    None => 0,
                };
                Some(
                    RaftGroup {
                        node_id,
                        partition: PartitionId(partition),
                        peers: parse_raft_peers(peers.as_str()),
                    },
                )
            },
            _ => None,
        }
    }
}

/// The checkpoint that a fresh replica starts from, if there was one at `path`. That
/// there was none is counted as a failed start, as is one that cannot be read or
/// installed ([`metrics::log_replica_bootstrap_result`]).
pub fn found_checkpoint<T>(metrics: &mut MetricsRecorder, path: &str, checkpoint: Option<T>) -> (r: Result<
    T,
    StartupError,
>)
    ensures
        match checkpoint {
            Some(c) => r == Ok::<T, StartupError>(c) && final(metrics)@ == old(metrics)@,
            None => {
                &&& r matches Err(StartupError::NoCheckpoint { path: p })
                &&& p@ == path@
                &&& final(metrics)@ == old(metrics)@.push(
                    metrics::counted(
                        "REPLICA_BOOTSTRAP_TOTAL"@,
                        1,
                        seq![("status"@, metrics::status_text(false))],
                    ),
                )
            },
        },
{
    match checkpoint {
        Some(c) => Ok(c),
        None => {
            metrics::log_replica_bootstrap_result(metrics, false);
            Err(StartupError::NoCheckpoint { path: path.to_owned() })
        },
    }
}

/// The partitions that have addresses.
pub open spec fn known_partitions(addresses: Option<&NodeAddresses>) -> Seq<PartitionId> {
    match addresses {
        Some(a) => Seq::new(
            ordered::ascending_u32(a@.dom()).len(),
            |i: int| PartitionId(ordered::ascending_u32(a@.dom())[i]),
        ),
        None => Seq::empty(),
    }
}

/// `partitions` without `local`.
pub open spec fn without_partition(partitions: Seq<PartitionId>, local: PartitionId) -> Seq<PartitionId>
    decreases partitions.len(),
{
    if partitions.len() == 0 {
        Seq::empty()
    } else {
        let rest = without_partition(partitions.drop_last(), local);
        if partitions.last() == local {
            rest
        } else {
            rest.push(partitions.last())
        }
    }
}

fn drop_partition(partitions: &Vec<PartitionId>, local: PartitionId) -> (r: Vec<PartitionId>)
    ensures
        r@ == without_partition(partitions@, local),
{
    let mut r: Vec<PartitionId> = Vec::new();
    let mut i: usize = 0;
    assert(partitions@.take(0) =~= Seq::empty());
    while i < partitions.len()
        invariant
            i <= partitions@.len(),
            r@ == without_partition(partitions@.take(i as int), local),
        decreases partitions@.len() - i,
    {
        assert(partitions@.take(i + 1).drop_last() =~= partitions@.take(i as int));
        if partitions[i] != local {
            r.push(partitions[i]);
        }
        i += 1;
    }
    assert(partitions@.take(i as int) =~= partitions@);
    r
}

/// How a node consumes what other nodes commit.
#[derive(Debug)]
pub struct DeltaConsumer {
    pub connection: NatsConfig,
    /// The subjects it listens to; an empty list stands for all.
    pub subjects: Vec<String>,
    /// Commits up to here are skipped.
    pub from_ts: u64,
    /// Whether it relies on being sent what it is interested in.
    pub selective: bool,
}

/// From where a node consumes what others commit.
pub open spec fn start_ts(local_snapshot_ts: u64, partition_id: Option<u32>) -> u64 {
    if partition_id is Some {
        0
    } else {
        local_snapshot_ts
    }
}

/// From where a node consumes what others commit. Each partition has timestamps
/// of its own, so a partition's snapshot says nothing of what it has of others,
/// and it consumes all; a replica goes on from the snapshot that it has.
pub fn replica_delta_consumer_start_ts(local_snapshot_ts: u64, partition_id: Option<u32>) -> (r: u64)
    ensures
        r == start_ts(local_snapshot_ts, partition_id),
{
    if partition_id.is_some() {
        MIN_TIMESTAMP
    } else {
        local_snapshot_ts
    }
}

/// How long to wait before a consumer is started again.
#[derive(Clone, Copy, Debug, PartialEq, Eq, Structural)]
pub struct ConsumerBackoff {
    wait_ms: u64,
}

impl ConsumerBackoff {
    /// The next wait, in milliseconds.
    pub closed spec fn wait(self) -> u64 {
        self.wait_ms
    }

    #[verifier::type_invariant]
    spec fn in_bounds(self) -> bool {
        CONSUMER_BACKOFF_MS <= self.wait_ms <= MAX_CONSUMER_BACKOFF_MS
    }

    /// The wait is short at first.
    pub fn new() -> (r: Self)
        ensures
            r.wait() == CONSUMER_BACKOFF_MS,
    {
        ConsumerBackoff { wait_ms: CONSUMER_BACKOFF_MS }
    }

    /// How long to wait now, in milliseconds. The next wait is twice as long, up
    /// to a limit.
    pub fn next(&mut self) -> (r: u64)
        ensures
            r == old(self).wait(),
            CONSUMER_BACKOFF_MS <= r <= MAX_CONSUMER_BACKOFF_MS,
            final(self).wait() == (if 2 * r <= MAX_CONSUMER_BACKOFF_MS {
                2 * r
            } else {
                MAX_CONSUMER_BACKOFF_MS as int
            }),
    {
        proof {
            use_type_invariant(&*self);
        }
        let now: u64 = self.wait_ms;
        self.wait_ms = if now * 2 <= MAX_CONSUMER_BACKOFF_MS {
            now * 2
        } else {
            MAX_CONSUMER_BACKOFF_MS
        };
        now
    }
}

/// A member of a Raft group.
#[derive(Debug)]
pub struct RaftPeer {
    pub id: u64,
    /// The address as it was given.
    pub address: String,
    /// The address as a URL.
    pub grpc_url: String,
}

/// The Raft group that a node joins.
#[derive(Debug)]
pub struct RaftGroup {
    pub node_id: u64,
    pub partition: PartitionId,
    pub peers: Vec<RaftPeer>,
}

/// What a member of a Raft group is.
#[verifier::ext_equal]
pub struct Peer {
    pub id: u64,
    pub address: Seq<char>,
    pub grpc_url: Seq<char>,
}

impl View for RaftPeer {
    type V = Peer;

    open spec fn view(&self) -> Peer {
        Peer { id: self.id, address: self.address@, grpc_url: self.grpc_url@ }
    }
}

/// What the members of a Raft group are.
pub open spec fn peers_of(peers: Seq<RaftPeer>) -> Seq<Peer> {
    peers.map_values(|p: RaftPeer| p@)
}

/// An address as a URL.
pub open spec fn as_url(address: Seq<char>) -> Seq<char> {
    if text::occurs(address, "://"@) {
        text::trimmed(address)
    } else {
        "http://"@ + text::trimmed(address)
    }
}

/// The member written in one `id=address` pair.
pub open spec fn peer_in(pair: Seq<char>) -> Option<Peer> {
    match text::cut(text::trimmed(pair), '=') {
        Some((id, address)) => match text::number(text::trimmed(id), u64::MAX as nat) {
            Some(n) => Some(
                Peer { id: n as u64, address: text::trimmed(address), grpc_url: as_url(address) },
            ),
            None => None,
        },
        None => None,
    }
}

/// The members written in `pairs`; what is no member is passed over.
pub open spec fn peers_in(pairs: Seq<Seq<char>>) -> Seq<Peer>
    decreases pairs.len(),
{
    if pairs.len() == 0 {
        Seq::empty()
    } else {
        let rest = peers_in(pairs.drop_last());
        match peer_in(pairs.last()) {
            Some(p) => rest.push(p),
            None => rest,
        }
    }
}

/// Reads `id=address` pairs, separated by commas. Pairs that are not well formed
/// are passed over.
pub fn parse_raft_peers(peers: &str) -> (r: Vec<RaftPeer>)
    ensures
        peers_of(r@) == peers_in(text::pieces(peers@, ',')),
{
    let pairs: Vec<String> = text::split(peers, ',');
    let ghost all = text::pieces(peers@, ',');
    let mut r: Vec<RaftPeer> = Vec::new();
    let mut i: usize = 0;
    assert(peers_of(r@) =~= peers_in(all.take(0)));
    while i < pairs.len()
        invariant
            i <= pairs@.len(),
            pairs@.len() == all.len(),
            forall|j: int| 0 <= j < pairs@.len() ==> (#[trigger] pairs@[j])@ == all[j],
            peers_of(r@) == peers_in(all.take(i as int)),
        decreases pairs@.len() - i,
    {
        proof {
            let longer = all.take(i + 1);
            assert(longer.drop_last() =~= all.take(i as int));
            assert(longer.last() == pairs@[i as int]@);
        }
        let pair: String = text::trim(pairs[i].as_str());
        if let Some((id, address)) = text::split_once(pair.as_str(), '=') {
            let id: String = text::trim(id.as_str());
            if let Some(id) = text::parse_number(id.as_str(), u64::MAX) {
                let trimmed: String = text::trim(address.as_str());
                let mut grpc_url: String = String::new();
                if !text::contains(address.as_str(), "://") {
                    grpc_url.append("http://");
                }
                grpc_url.append(trimmed.as_str());
                assert(grpc_url@ =~= as_url(address@));
                let ghost before = r@;
                let peer = RaftPeer { id, address: trimmed, grpc_url };
                let ghost p = peer@;
                r.push(peer);
                assert(peers_of(r@) =~= peers_of(before).push(p));
            }
        }
        i += 1;
    }
    assert(all.take(i as int) =~= all);
    r
}

/// The URL of each member, a later one in place of an earlier one.
pub open spec fn urls_of(peers: Seq<Peer>) -> Map<u64, Seq<char>>
    decreases peers.len(),
{
    if peers.len() == 0 {
        Map::empty()
    } else {
        urls_of(peers.drop_last()).insert(peers.last().id, peers.last().grpc_url)
    }
}

impl RaftGroup {
    /// The URL of each member.
    pub fn grpc_urls(&self) -> (r: BTreeMap<u64, String>)
        ensures
            r@.map_values(|s: String| s@) == urls_of(peers_of(self.peers@)),
    {
        let ghost all = peers_of(self.peers@);
        let mut r: BTreeMap<u64, String> = BTreeMap::new();
        let mut i: usize = 0;
        assert(r@.map_values(|s: String| s@) =~= urls_of(all.take(0)));
        while i < self.peers.len()
            invariant
                i <= self.peers@.len(),
                all == peers_of(self.peers@),
                r@.map_values(|s: String| s@) == urls_of(all.take(i as int)),
            decreases self.peers@.len() - i,
        {
            let peer = &self.peers[i];
            proof {
                let longer = all.take(i + 1);
                assert(longer.drop_last() =~= all.take(i as int));
                assert(longer.last() == peer@);
            }
            let ghost before = r@;
            let url: String = peer.grpc_url.as_str().to_owned();
            let ghost u = url@;
            r.insert(peer.id, url);
            assert(r@.map_values(|s: String| s@) =~= before.map_values(|s: String| s@).insert(
                peer.id,
                u,
            ));
            i += 1;
        }
        assert(all.take(i as int) =~= all);
        r
    }

    /// The members' numbers, in the order in which they are given.
    pub fn ids(&self) -> (r: Vec<u64>)
        ensures
            r@ == Seq::new(self.peers@.len(), |i: int| self.peers@[i].id),
    {
        let ghost want = Seq::new(self.peers@.len(), |i: int| self.peers@[i].id);
        let mut r: Vec<u64> = Vec::new();
        let mut i: usize = 0;
        while i < self.peers.len()
            invariant
                i <= self.peers@.len(),
                want == Seq::new(self.peers@.len(), |i: int| self.peers@[i].id),
                r@ == want.take(i as int),
            decreases self.peers@.len() - i,
        {
            r.push(self.peers[i].id);
            assert(r@ =~= want.take(i + 1));
            i += 1;
        }
        assert(want.take(i as int) =~= want);
        r
    }
}

/// What a node knows of its right to speak for its Raft group.
#[derive(Clone, Copy, Debug, PartialEq, Eq, Structural)]
pub struct RaftAuthority {
    pub state: RaftState,
    /// Whether the leader's lease to serve is still running.
    pub has_leader_serving_lease: bool,
}

/// The node runs what the cluster runs once.
pub open spec fn has_cluster_authority(
    replica_mode: bool,
    partition_id: Option<PartitionId>,
    raft: Option<RaftAuthority>,
) -> bool {
    &&& !replica_mode
    &&& match partition_id {
        None => true,
        Some(p) => p.0 == CLUSTER_COORDINATOR_PARTITION && match raft {
            None => true,
            Some(r) => r.state.is_leader && r.has_leader_serving_lease,
        },
    }
}

/// Whether the node runs what the cluster runs once: a lone node does, and of
/// several partitions the leader of the coordinator partition, as long as its
/// lease runs. A replica never does.
pub fn should_run_cluster_singleton_workers(
    replica_mode: bool,
    partition_id: Option<PartitionId>,
    raft_state: Option<&RaftAuthority>,
) -> (r: bool)
    ensures
        r == has_cluster_authority(
            replica_mode,
            partition_id,
            match raft_state {
                Some(a) => Some(*a),
                None => None,
            },
        ),
{
    if replica_mode {
        return false;
    }
    match partition_id {
        None => true,
        Some(p) => p.0 == CLUSTER_COORDINATOR_PARTITION && match raft_state {
            None => true,
            Some(a) => a.state.is_leader && a.has_leader_serving_lease,
        },
    }
}

/// What to do with the workers that the cluster runs once.
#[derive(Clone, Copy, Debug, PartialEq, Eq, Structural)]
pub enum WorkerAction {
    Start,
    Stop,
    Keep,
}

/// Starts and stops the workers that the cluster runs once.
#[derive(Clone, Copy, Debug, PartialEq, Eq, Structural)]
pub struct WorkerSupervisor {
    pub running: bool,
}

impl WorkerSupervisor {
    /// A supervisor of workers that have not been started, for a node that is not
    /// alone. A lone node needs none.
    pub fn start(replica_mode: bool, partition_id: Option<PartitionId>) -> (r: Option<Self>)
        ensures
            r == (if replica_mode || partition_id is Some {
                Some(WorkerSupervisor { running: false })
            } else {
                None
            }),
    {
        if !replica_mode && partition_id.is_none() {
            return None;
        }
        Some(WorkerSupervisor { running: false })
    }

    /// What to do, given whether the node has the authority now.
    pub fn step(&mut self, should_run: bool) -> (r: WorkerAction)
        ensures
            final(self).running == should_run,
            r == (if should_run && !old(self).running {
                WorkerAction::Start
            } else if !should_run && old(self).running {
                WorkerAction::Stop
            } else {
                WorkerAction::Keep
            }),
    {
        if should_run && !self.running {
            self.running = true;
            WorkerAction::Start
        } else if !should_run && self.running {
            self.running = false;
            WorkerAction::Stop
        } else {
            WorkerAction::Keep
        }
    }
}

/// Whether the workers of the application start with it.
#[derive(Clone, Copy, Debug, PartialEq, Eq, Structural)]
pub enum ApplicationWorkerStartupPolicy {
    /// All workers start.
    SingleNode,
    /// What the cluster runs once waits until the node has the authority.
    ClusteredFailClosed,
}

/// Whether the workers of the application start with it: on a lone node they
/// do.
pub fn application_worker_startup_policy(replication_mode: &str, partition_id: Option<PartitionId>) -> (r:
    ApplicationWorkerStartupPolicy)
    ensures
        r == (if replication_mode@ == "replica"@ || partition_id is Some {
            ApplicationWorkerStartupPolicy::ClusteredFailClosed
        } else {
            ApplicationWorkerStartupPolicy::SingleNode
        }),
{
    if text::same(replication_mode, "replica") || partition_id.is_some() {
        ApplicationWorkerStartupPolicy::ClusteredFailClosed
    } else {
        ApplicationWorkerStartupPolicy::SingleNode
    }
}

/// The body of an answer that has nothing to say.
#[derive(Clone, Copy, Debug, PartialEq, Eq, Structural)]
pub struct EmptyResponse {}

/// Groups requests by route for measurements.
#[derive(Clone, Copy, Debug, PartialEq, Eq, Structural)]
pub struct HttpActionRouteMapper;

impl HttpActionRouteMapper {
    /// The route that a request is counted under. User routes can be anything,
    /// so they are all counted under one.
    pub fn map_route(&self, route: String) -> (r: String)
        ensures
            r@ == (if "/http/"@.is_prefix_of(route@) {
                "/http/:user_http_action"@
            } else {
                route@
            }),
    {
        if text::starts_with(route.as_str(), "/http/") {
            "/http/:user_http_action".to_owned()
        } else {
            route
        }
    }
}

/// At most one partition has the authority to run what the cluster runs once.
pub proof fn one_partition_has_cluster_authority(
    a: PartitionId,
    raft_a: Option<RaftAuthority>,
    b: PartitionId,
    raft_b: Option<RaftAuthority>,
)
    requires
        has_cluster_authority(false, Some(a), raft_a),
        has_cluster_authority(false, Some(b), raft_b),
    ensures
        a == b,
{
}

/// A replica, a follower and a leader whose lease has run out do not run what
/// the cluster runs once.
pub proof fn authority_fails_closed(partition: PartitionId, raft: RaftAuthority)
    ensures
        !has_cluster_authority(true, Some(partition), Some(raft)),
        !raft.state.is_leader ==> !has_cluster_authority(false, Some(partition), Some(raft)),
        !raft.has_leader_serving_lease ==> !has_cluster_authority(
            false,
            Some(partition),
            Some(raft),
        ),
{
}

proof fn lemma_without(partitions: Seq<PartitionId>, local: PartitionId, p: PartitionId)
    ensures
        without_partition(partitions, local).contains(p) == (partitions.contains(p) && p != local),
    decreases partitions.len(),
{
    let w = without_partition(partitions, local);
    if partitions.len() > 0 {
        let rest = partitions.drop_last();
        let r = without_partition(rest, local);
        lemma_without(rest, local, p);
        assert(partitions.contains(p) == (rest.contains(p) || p == partitions.last())) by {
            if rest.contains(p) {
                let j = choose|j: int| 0 <= j < rest.len() && rest[j] == p;
                assert(partitions[j] == p);
            }
            if partitions.contains(p) && p != partitions.last() {
                let j = choose|j: int| 0 <= j < partitions.len() && partitions[j] == p;
                assert(rest[j] == p);
            }
            assert(partitions[partitions.len() - 1] == partitions.last());
        }
        if partitions.last() != local {
            assert(w.contains(p) == (r.contains(p) || p == partitions.last())) by {
                if r.contains(p) {
                    let j = choose|j: int| 0 <= j < r.len() && r[j] == p;
                    assert(w[j] == p);
                }
                if w.contains(p) && p != partitions.last() {
                    let j = choose|j: int| 0 <= j < w.len() && w[j] == p;
                    assert(r[j] == p);
                }
                assert(w[w.len() - 1] == partitions.last());
            }
        }
    }
}

/// A partition that is not told to rely on selective delivery listens to every
/// other partition, and never to itself: what it has of its own comes from Raft.
pub proof fn partitions_consume_all_others(config: LocalConfig, known: Seq<PartitionId>, p: u32)
    requires
        config.partition_id is Some,
        config.num_partitions is Some,
    ensures
        config.others(known)->0.contains(PartitionId(p)) == (p < config.num_partitions->0 && p
            != config.partition_id->0),
{
    let n = config.num_partitions->0;
    let all = Seq::new(n as nat, |i: int| PartitionId(i as u32));
    lemma_without(all, PartitionId(config.partition_id->0), PartitionId(p));
    if p < n {
        assert(all[p as int] == PartitionId(p));
    }
    if all.contains(PartitionId(p)) {
        let j = choose|j: int| 0 <= j < all.len() && all[j] == PartitionId(p);
        assert(all[j] == PartitionId(j as u32));
    }
}

proof fn lemma_without_partition(partitions: Seq<PartitionId>, local: PartitionId, p: PartitionId)
    ensures
        without_partition(partitions, local).contains(p) <==> partitions.contains(p) && p != local,
    decreases partitions.len(),
{
    if partitions.len() > 0 {
        let front = partitions.drop_last();
        let n = partitions.len() - 1;
        let rest = without_partition(front, local);
        let all = without_partition(partitions, local);
        lemma_without_partition(front, local, p);
        assert(partitions[n] == partitions.last());
        if front.contains(p) {
            let k = choose|k: int| 0 <= k < front.len() && front[k] == p;
            assert(partitions[k] == p);
        }
        if partitions.contains(p) && !front.contains(p) {
            let k = choose|k: int| 0 <= k < partitions.len() && partitions[k] == p;
            if k < n {
                assert(front[k] == p);
            }
        }
        if rest.contains(p) {
            let k = choose|k: int| 0 <= k < rest.len() && rest[k] == p;
            assert(all[k] == p);
        }
        if all.contains(p) && !rest.contains(p) {
            let k = choose|k: int| 0 <= k < all.len() && all[k] == p;
            if k < rest.len() {
                assert(rest[k] == p);
            }
        }
        if partitions[n] != local {
            assert(all[rest.len() as int] == partitions[n]);
        }
    }
}

/// A node of a partition hears from all other partitions that it knows of where it
/// was not told how many there are; a node of none asks for no partition.
pub proof fn partitions_consume_those_they_know(config: LocalConfig, known: Seq<PartitionId>, p: PartitionId)
    ensures
        config.partition_id is None ==> config.others(known) is None,
        config.partition_id matches Some(local) ==> config.others(known) is Some && (
        config.num_partitions is None ==> (config.others(known)->0.contains(p) <==> known.contains(
            p,
        ) && p != PartitionId(local))),
{
    if config.partition_id is Some {
        lemma_without_partition(known, PartitionId(config.partition_id->0), p);
    }
}

/// The partitions that a node knows of are those that it has addresses for, in order.
pub proof fn partitions_with_addresses_are_known(addresses: NodeAddresses, p: u32, i: int, j: int)
    requires
        addresses@.dom().finite(),
    ensures
        known_partitions(Some(&addresses)).contains(PartitionId(p)) <==> addresses@.contains_key(p),
        0 <= i < j < known_partitions(Some(&addresses)).len() ==> known_partitions(
            Some(&addresses),
        )[i].0 < known_partitions(Some(&addresses))[j].0,
        known_partitions(None).len() == 0,
{
    let ids = ordered::ascending_u32(addresses@.dom());
    let known = known_partitions(Some(&addresses));
    ordered::lemma_ascending_u32(addresses@.dom());
    assert(ids.to_set().contains(p) <==> addresses@.contains_key(p));
    if addresses@.contains_key(p) {
        let k = choose|k: int| 0 <= k < ids.len() && ids[k] == p;
        assert(known[k] == PartitionId(p));
    }
    if known.contains(PartitionId(p)) {
        let k = choose|k: int| 0 <= k < known.len() && known[k] == PartitionId(p);
        assert(ids[k] == p);
    }
}

/// Only a node of a partition other than the first relies on what interests it.
pub proof fn the_first_partition_hears_everything(config: LocalConfig)
    ensures
        config.selective() <==> config.trust_interest && config.partition_id is Some
            && config.partition_id != Some(0u32),
{
}

/// A node that relies on what interests it listens under its own name and for what
/// concerns everyone; any other of a partition listens to each other partition, and
/// one of none to everything.
pub proof fn nodes_listen_to_whom_they_need(config: LocalConfig, known: Seq<PartitionId>, i: int)
    ensures
        config.selective() ==> config.consumed(known).len() == 3 && config.consumed(known)[0]
            == "convex.commits.node"@ + "."@ + config.name@ && config.consumed(known)[1]
            == "convex.commits.system"@ && config.consumed(known)[2]
            == "convex.commits.frontier_heartbeat"@,
        !config.selective() ==> match config.others(known) {
            Some(others) => config.consumed(known).len() == others.len() && (0 <= i < others.len()
                ==> config.consumed(known)[i] == "convex.commits"@ + "."@ + text::dec(
                others[i].0 as nat,
            )),
            None => config.consumed(known).len() == 0,
        },
{
}

/// A node of a partition consumes from the beginning, and a replica from where its
/// own data ends.
pub proof fn consumers_start_where_their_data_ends(local_snapshot_ts: u64, partition: u32)
    ensures
        start_ts(local_snapshot_ts, Some(partition)) == 0,
        start_ts(local_snapshot_ts, None) == local_snapshot_ts,
{
}

/// What a node was told about partitions: none is one, no version is the first, and
/// who owns which table comes from the list of tables.
pub proof fn configured_placements_are_as_told(config: LocalConfig)
    ensures
        config.partition_map_version matches Some(v) ==> config.placement().version.0 == v,
        config.partition_map_version is None ==> config.placement().version.0 == 0,
        config.num_partitions matches Some(n) ==> config.placement().num_partitions == n,
        config.num_partitions is None ==> config.placement().num_partitions == 1,
        config.partition_map matches Some(m) ==> config.placement().rules == partition::rules_in(
            text::pieces(m@, ','),
        ),
        config.placement().members.dom() == Set::<u32>::empty(),
        config.placement().source == PlacementMetadataSource::StaticConfig,
{
}

/// An address with a scheme is used as it is, and any other over HTTP.
pub proof fn addresses_become_urls(address: Seq<char>)
    ensures
        text::occurs(address, "://"@) ==> as_url(address) == text::trimmed(address),
        !text::occurs(address, "://"@) ==> as_url(address) == "http://"@ + text::trimmed(address),
{
}

/// A peer is an id and an address around an equals sign; what is not that is passed
/// over, and the others are kept in order.
pub proof fn peers_have_ids_and_addresses(pairs: Seq<Seq<char>>, pair: Seq<char>)
    ensures
        peers_in(Seq::empty()).len() == 0,
        peer_in(pair) is None ==> peers_in(pairs.push(pair)) == peers_in(pairs),
        peer_in(pair) matches Some(p) ==> peers_in(pairs.push(pair)) == peers_in(pairs).push(p),
        peer_in(pair) is Some <==> (text::cut(text::trimmed(pair), '=') matches Some((id, _))
            && text::number(text::trimmed(id), 0xffff_ffff_ffff_ffff) is Some),
        peer_in(pair) matches Some(p) ==> (text::cut(text::trimmed(pair), '=') matches Some(
            (id, address),
        ) && p.id as nat == text::number(text::trimmed(id), 0xffff_ffff_ffff_ffff)->0 && p.address
            == text::trimmed(address) && p.grpc_url == as_url(address)),
{
    assert(pairs.push(pair).drop_last() == pairs);
}

/// A peer is reached at the address that was given for it last.
pub proof fn peers_are_reached_at_their_addresses(peers: Seq<Peer>, i: int)
    requires
        0 <= i < peers.len(),
        forall|j: int| i < j < peers.len() ==> (#[trigger] peers[j]).id != peers[i].id,
    ensures
        urls_of(peers).contains_key(peers[i].id),
        urls_of(peers)[peers[i].id] == peers[i].grpc_url,
    decreases peers.len(),
{
    if i < peers.len() - 1 {
        let front = peers.drop_last();
        assert(front[i] == peers[i]);
        assert forall|j: int| i < j < front.len() implies (#[trigger] front[j]).id
            != front[i].id by {
            assert(peers[j] == front[j]);
        }
        peers_are_reached_at_their_addresses(front, i);
        assert(peers[peers.len() - 1].id != peers[i].id);
    }
}

/// What belongs to the cluster as a whole runs on a node that is no replica, of no
/// partition or of the first one, where it leads and may serve.
pub proof fn authority_is_owed(partition: Option<PartitionId>, raft: Option<RaftAuthority>)
    ensures
        has_cluster_authority(false, None, raft),
        has_cluster_authority(false, Some(PartitionId(0)), None),
        raft matches Some(r) ==> (has_cluster_authority(false, Some(PartitionId(0)), raft)
            <==> r.state.is_leader && r.has_leader_serving_lease),
        partition matches Some(p) ==> (p.0 != 0 ==> !has_cluster_authority(
            false,
            partition,
            raft,
        )),
        !has_cluster_authority(true, partition, raft),
{
}

} // verus!
