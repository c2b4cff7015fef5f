//! The distributed log over NATS JetStream: what is published where, what a
//! consumer listens to, and what becomes of each message.
//!
//! Whoever holds the connection makes the calls and hands back what came of
//! them; every decision is made here.
use crate::committer::delta::{CommitDelta, Delta};
use crate::metrics;
use crate::metrics::{Measured, MetricsRecorder};
use crate::names;
use crate::names::TableName;
use crate::partition;
use crate::partition::PartitionId;
use crate::selective_delivery;
use crate::selective_delivery::{InterestEvent, Registry, SelectiveDeliveryRegistry};
use crate::table_set::TableSet;
use crate::text;
use envelope::DeltaEnvelope;
use vstd::prelude::*;
use vstd::string::*;

pub mod envelope;

verus! {

/// The stream that commits are kept in.
pub const STREAM_NAME: &'static str = "CONVEX_COMMITS";

/// The subject of commits. A node that serves one of several partitions
/// publishes below it, under the partition's number.
pub const SUBJECT_BASE: &'static str = "convex.commits";

/// The subject of commits to system tables.
pub const SYSTEM_TABLE_SUBJECT: &'static str = "convex.commits.system";

/// The subject of heartbeats.
pub const FRONTIER_HEARTBEAT_SUBJECT: &'static str = "convex.commits.frontier_heartbeat";

/// How long the stream keeps a commit, in seconds.
pub const STREAM_MAX_AGE_SECS: u64 = 86_400;

/// The consumer of a node that was not given a name.
pub const DEFAULT_CONSUMER_NAME: &'static str = "convex-node";

/// Messages that a consumer needs and the stream no longer has.
#[derive(Clone, Copy, Debug, PartialEq, Eq, Structural)]
pub struct RetentionGap {
    pub expected_stream_sequence: u64,
    pub first_retained_sequence: u64,
    pub ack_floor_stream_sequence: u64,
    pub delivered_stream_sequence: u64,
}

/// How to connect to NATS.
#[derive(Debug)]
pub struct NatsConfig {
    pub url: String,
    /// The consumer of this node. Each node needs a name of its own, so that
    /// each gets all messages.
    pub consumer_name: Option<String>,
    /// The partition whose subject this node publishes to; where there is none,
    /// it publishes to the subject of all commits.
    pub partition_id: Option<u32>,
}

/// Where this node is in the distributed log.
#[derive(Debug)]
pub struct NatsDistributedLog {
    consumer_name: String,
    publish_subject: String,
    selective_registry: Option<SelectiveDeliveryRegistry>,
}

/// What the node's place in the log is.
#[verifier::ext_equal]
pub struct Log {
    pub consumer: Seq<char>,
    pub subject: Seq<char>,
    pub registry: Option<Registry>,
}

impl View for NatsDistributedLog {
    type V = Log;

    closed spec fn view(&self) -> Log {
        Log {
            consumer: self.consumer_name@,
            subject: self.publish_subject@,
            registry: match self.selective_registry {
                Some(r) => Some(r@),
                None => None,
            },
        }
    }
}

/// The subject of one partition's commits.
pub open spec fn partition_subject_text(partition: u32) -> Seq<char> {
    SUBJECT_BASE@ + "."@ + text::dec(partition as nat)
}

/// The first message that a consumer still needs, where that can be told. A
/// consumer that has acknowledged messages needs the next one. One that has
/// acknowledged none needs the first, if it has been sent messages or starts
/// from the beginning. Of one that starts from a checkpoint and has no place in
/// the stream, sequence numbers say nothing.
pub open spec fn next_needed(ack_floor: u64, delivered: u64, from_ts: u64) -> Option<int> {
    if ack_floor > 0 {
        Some(if ack_floor == u64::MAX {
            u64::MAX as int
        } else {
            ack_floor + 1
        })
    } else if delivered > 0 || from_ts == 0 {
        Some(1)
    } else {
        None
    }
}

/// The gap between what a consumer needs and what the stream has.
pub open spec fn gap_in(
    messages: u64,
    first_retained: u64,
    ack_floor: u64,
    delivered: u64,
    from_ts: u64,
) -> Option<RetentionGap> {
    match next_needed(ack_floor, delivered, from_ts) {
        Some(expected) => if messages > 0 && expected < first_retained {
            Some(
                RetentionGap {
                    expected_stream_sequence: expected as u64,
                    first_retained_sequence: first_retained,
                    ack_floor_stream_sequence: ack_floor,
                    delivered_stream_sequence: delivered,
                },
            )
        } else {
            None
        },
        None => None,
    }
}

/// Said when a consumer needs messages that the stream no longer has.
pub open spec fn gap_text(consumer: Seq<char>, gap: RetentionGap, from_ts: u64) -> Seq<char> {
    "NATS replication stream retention gap for consumer '"@ + consumer
        + "': next required stream sequence "@ + text::dec(gap.expected_stream_sequence as nat)
        + " is older than first retained sequence "@ + text::dec(
        gap.first_retained_sequence as nat,
    ) + " (ack_floor="@ + text::dec(gap.ack_floor_stream_sequence as nat) + ", delivered="@
        + text::dec(gap.delivered_stream_sequence as nat) + ", from_ts="@ + text::dec(
        from_ts as nat,
    ) + "). Rebootstrap from checkpoint before serving."@
}

/// How far a consumer has come.
#[derive(Clone, Copy, Debug, PartialEq, Eq, Structural)]
pub struct ConsumerProgress {
    pub ack_floor_stream_sequence: u64,
    pub delivered_stream_sequence: u64,
    pub delivered_consumer_sequence: u64,
    pub num_pending: u64,
}

/// How far a consumer has come, as it is measured.
pub open spec fn progress_measured(pending: u64, stream: u64, consumer: u64) -> Seq<Measured> {
    seq![
        metrics::gauged(
            "DATABASE_REPLICATION_TRANSPORT_PENDING_MESSAGES_INFO"@,
            pending as int,
            metrics::unlabelled(),
        ),
        metrics::gauged(
            "DATABASE_REPLICATION_TRANSPORT_STREAM_SEQUENCE_INFO"@,
            stream as int,
            metrics::unlabelled(),
        ),
        metrics::gauged(
            "DATABASE_REPLICATION_TRANSPORT_CONSUMER_SEQUENCE_INFO"@,
            consumer as int,
            metrics::unlabelled(),
        ),
    ]
}

fn measure_progress(metrics: &mut MetricsRecorder, pending: u64, stream: u64, consumer: u64)
    ensures
        final(metrics)@ == old(metrics)@ + progress_measured(pending, stream, consumer),
{
    metrics::log_replication_transport_pending_messages(metrics, pending);
    metrics::log_replication_transport_stream_sequence(metrics, stream);
    metrics::log_replication_transport_consumer_sequence(metrics, consumer);
    assert(metrics@ =~= old(metrics)@ + progress_measured(pending, stream, consumer));
}

/// What a message says of its place in the stream. Times are nanoseconds since
/// 1970.
#[derive(Clone, Copy, Debug, PartialEq, Eq, Structural)]
pub struct MessageInfo {
    pub pending: u64,
    pub stream_sequence: u64,
    pub consumer_sequence: u64,
    pub published_ns: i128,
    pub now_ns: i128,
}

/// What is measured of a message. A message from the future has no lag, and neither
/// has one whose lag no number can hold.
pub open spec fn message_measured(payload_len: usize, info: Option<MessageInfo>) -> Seq<Measured> {
    let bytes = metrics::observed(
        "DATABASE_REPLICATION_TRANSPORT_MESSAGE_BYTES"@,
        payload_len as int,
        seq![("phase"@, "consume"@)],
    );
    match info {
        None => seq![bytes],
        Some(i) => {
            let progress = seq![bytes] + progress_measured(
                i.pending,
                i.stream_sequence,
                i.consumer_sequence,
            );
            if 0 <= i.now_ns - i.published_ns <= i128::MAX {
                progress.push(
                    metrics::timed(
                        "DATABASE_REPLICATION_TRANSPORT_LAG_SECONDS"@,
                        i.now_ns - i.published_ns,
                        metrics::unlabelled(),
                    ),
                )
            } else {
                progress
            }
        },
    }
}

/// What to do with a message.
#[derive(Debug)]
pub enum MessageStep {
    /// Terminate it, so that it is not sent again, and report the error.
    Terminate { error: String },
    /// Acknowledge it and say nothing of it; if that fails, report the error
    /// with this in front.
    Skip { failure: String },
    /// Decode the updates and hand the commit on.
    Open,
}

/// What to do with a message, as contracts speak of it.
pub enum Step {
    Terminate(Seq<char>),
    Skip(Seq<char>),
    Open,
}

impl View for MessageStep {
    type V = Step;

    open spec fn view(&self) -> Step {
        match self {
            MessageStep::Terminate { error } => Step::Terminate(error@),
            MessageStep::Skip { failure } => Step::Skip(failure@),
            MessageStep::Open => Step::Open,
        }
    }
}

/// What to do with a message whose payload was read as an envelope, or could not
/// be: commits up to `from_ts` are known already, and so are the node's own.
pub open spec fn step_for(
    consumer: Seq<char>,
    from_ts: u64,
    payload: Result<envelope::Envelope, Seq<char>>,
) -> Step {
    match payload {
        Err(e) => Step::Terminate("Failed to deserialize delta: "@ + e),
        Ok(e) => if e.ts <= from_ts {
            Step::Skip(
                "Failed to ack skipped NATS delta at ts="@ + text::dec(e.ts as nat) + ": "@,
            )
        } else if e.source_node.len() > 0 && e.source_node == consumer {
            Step::Skip(
                "Failed to ack self-published NATS delta at ts="@ + text::dec(e.ts as nat) + ": "@,
            )
        } else {
            Step::Open
        },
    }
}

/// An envelope that was read, or why it could not be.
pub open spec fn payload_of(payload: Result<&DeltaEnvelope, &str>) -> Result<envelope::Envelope, Seq<char>> {
    match payload {
        Ok(e) => Ok(e@),
        Err(e) => Err(e@),
    }
}

/// Where a commit is sent after it has been broadcast, and how far that has
/// come.
#[derive(Debug)]
pub enum PublishStage {
    /// To the subject that every node listens to.
    Broadcast,
    /// To the subject of system tables.
    System,
    /// To the subject of heartbeats.
    Heartbeat,
    /// To the nodes that are interested, from `next` on.
    Nodes { nodes: Vec<String>, next: usize },
    /// Nowhere any more.
    Done,
}

/// Where a commit is sent, as contracts speak of it.
pub enum Stage {
    Broadcast,
    System,
    Heartbeat,
    Nodes(Seq<Seq<char>>),
    Done,
}

impl View for PublishStage {
    type V = Stage;

    open spec fn view(&self) -> Stage {
        match self {
            PublishStage::Broadcast => Stage::Broadcast,
            PublishStage::System => Stage::System,
            PublishStage::Heartbeat => Stage::Heartbeat,
            PublishStage::Nodes { nodes, next } => Stage::Nodes(
                partition::texts(nodes@).skip(*next as int),
            ),
            PublishStage::Done => Stage::Done,
        }
    }
}

impl PublishStage {
    /// The position in the list of nodes is one of the list or its end.
    pub open spec fn in_range(self) -> bool {
        match self {
            PublishStage::Nodes { nodes, next } => next <= nodes@.len(),
            _ => true,
        }
    }
}

/// `nodes` without `node`.
pub open spec fn others(nodes: Seq<Seq<char>>, node: Seq<char>) -> Seq<Seq<char>>
    decreases nodes.len(),
{
    if nodes.len() == 0 {
        Seq::empty()
    } else {
        let rest = others(nodes.drop_last(), node);
        if nodes.last() == node {
            rest
        } else {
            rest.push(nodes.last())
        }
    }
}

/// A system table is among `tables`.
pub open spec fn touches_system(tables: Set<Seq<char>>) -> bool {
    exists|t: Seq<char>| #[trigger] tables.contains(t) && names::is_system_name(t)
}

/// What is left to send: an empty list of nodes is nothing.
pub open spec fn left(nodes: Seq<Seq<char>>) -> Stage {
    if nodes.len() == 0 {
        Stage::Done
    } else {
        Stage::Nodes(nodes)
    }
}

/// How many nodes a commit of a user table is sent to in particular.
pub open spec fn deliveries(n: int) -> Measured {
    metrics::counted(
        "DATABASE_SELECTIVE_DELIVERY_TARGETED_DELIVERIES_TOTAL"@,
        n,
        metrics::unlabelled(),
    )
}

impl Log {
    /// The other nodes that are interested in what a commit touches.
    pub open spec fn interested(self, delta: Delta, now_ms: u64) -> Seq<Seq<char>> {
        match self.registry {
            Some(r) => others(
                selective_delivery::targets(r.known, now_ms, delta.touched()),
                self.consumer,
            ),
            None => Seq::empty(),
        }
    }

    /// Where a commit goes once it has been broadcast.
    pub open spec fn after_broadcast(self, delta: Delta, now_ms: u64) -> Stage {
        if touches_system(delta.touched()) {
            Stage::System
        } else if delta.heartbeat() {
            Stage::Heartbeat
        } else {
            left(self.interested(delta, now_ms))
        }
    }

    /// Where a commit goes once what was sent has been acknowledged.
    pub open spec fn after(self, stage: Stage, delta: Delta, now_ms: u64) -> Stage {
        match stage {
            Stage::Broadcast => self.after_broadcast(delta, now_ms),
            Stage::Nodes(nodes) => left(nodes.skip(1)),
            _ => Stage::Done,
        }
    }

    /// What is measured once what was sent has been acknowledged.
    pub open spec fn measured_after(self, stage: Stage, delta: Delta, now_ms: u64) -> Seq<Measured> {
        match stage {
            Stage::Broadcast => match self.registry {
                Some(r) if !touches_system(delta.touched()) && !delta.heartbeat() => seq![
                    metrics::counted(
                        "DATABASE_SELECTIVE_DELIVERY_BROADCAST_DELTAS_TOTAL"@,
                        1,
                        metrics::unlabelled(),
                    ),
                ] + selective_delivery::health_measured(r.known, now_ms, delta.touched())
                    + seq![deliveries(self.interested(delta, now_ms).len() as int)],
                _ => Seq::empty(),
            },
            Stage::System => seq![deliveries(1)],
            Stage::Heartbeat => seq![deliveries(1)],
            _ => Seq::empty(),
        }
    }

    /// The subject that is published to.
    pub open spec fn subject_at(self, stage: Stage) -> Option<Seq<char>> {
        match stage {
            Stage::Broadcast => Some(self.subject),
            Stage::System => Some(SYSTEM_TABLE_SUBJECT@),
            Stage::Heartbeat => Some(FRONTIER_HEARTBEAT_SUBJECT@),
            Stage::Nodes(nodes) => Some(selective_delivery::subject_of(nodes[0])),
            Stage::Done => None,
        }
    }
}

/// Said when publishing could not be sent.
pub open spec fn send_failure_text(stage: Stage) -> Seq<char> {
    match stage {
        Stage::Broadcast => "Failed to send publish to NATS"@,
        Stage::System => "Failed to send selective-delivery system-table publish"@,
        Stage::Heartbeat => "Failed to send selective-delivery frontier heartbeat publish"@,
        Stage::Nodes(nodes) => "Failed to send selective-delivery publish to "@ + nodes[0],
        Stage::Done => Seq::empty(),
    }
}

/// Said when publishing was not acknowledged.
pub open spec fn ack_failure_text(stage: Stage) -> Seq<char> {
    match stage {
        Stage::Broadcast => "Failed to get publish acknowledgment from NATS"@,
        Stage::System => "Failed to get selective-delivery system-table acknowledgment"@,
        Stage::Heartbeat =>
            "Failed to get selective-delivery frontier heartbeat acknowledgment"@,
        Stage::Nodes(nodes) => "Failed to get selective-delivery ack for target node "@ + nodes[0],
        Stage::Done => Seq::empty(),
    }
}

impl PublishStage {
    /// Said when publishing could not be sent.
    pub fn send_failure(&self) -> (r: String)
        requires
            self.in_range(),
            self@ matches Stage::Nodes(nodes) ==> nodes.len() > 0,
        ensures
            r@ == send_failure_text(self@),
    {
        let mut s: String = String::new();
        match self {
            PublishStage::Broadcast => {
                s.append("Failed to send publish to NATS");
            },
            PublishStage::System => {
                s.append("Failed to send selective-delivery system-table publish");
            },
            PublishStage::Heartbeat => {
                s.append("Failed to send selective-delivery frontier heartbeat publish");
            },
            PublishStage::Nodes { nodes, next } => {
                s.append("Failed to send selective-delivery publish to ");
                s.append(nodes[*next].as_str());
            },
            PublishStage::Done => {},
        }
        assert(s@ =~= send_failure_text(self@));
        s
    }

    /// Said when publishing was not acknowledged.
    pub fn ack_failure(&self) -> (r: String)
        requires
            self.in_range(),
            self@ matches Stage::Nodes(nodes) ==> nodes.len() > 0,
        ensures
            r@ == ack_failure_text(self@),
    {
        let mut s: String = String::new();
        match self {
            PublishStage::Broadcast => {
                s.append("Failed to get publish acknowledgment from NATS");
            },
            PublishStage::System => {
                s.append("Failed to get selective-delivery system-table acknowledgment");
            },
            PublishStage::Heartbeat => {
                s.append("Failed to get selective-delivery frontier heartbeat acknowledgment");
            },
            PublishStage::Nodes { nodes, next } => {
                s.append("Failed to get selective-delivery ack for target node ");
                s.append(nodes[*next].as_str());
            },
            PublishStage::Done => {},
        }
        assert(s@ =~= ack_failure_text(self@));
        s
    }
}

fn any_system(tables: &TableSet) -> (r: bool)
    ensures
        r == touches_system(tables@),
{
    let all: Vec<TableName> = tables.tables();
    let ghost texts = partition::table_texts(all@);
    let mut i: usize = 0;
    while i < all.len()
        invariant
            i <= all@.len(),
            texts == partition::table_texts(all@),
            texts.to_set() == tables@,
            forall|j: int| 0 <= j < i ==> !names::is_system_name(#[trigger] texts[j]),
        decreases all@.len() - i,
    {
        assert(texts[i as int] == all@[i as int]@);
        if all[i].is_system() {
            assert(texts.to_set().contains(texts[i as int]));
            assert(tables@.contains(texts[i as int]));
            return true;
        }
        i += 1;
    }
    proof {
        assert forall|t: Seq<char>| tables@.contains(t) implies !names::is_system_name(t) by {
            assert(texts.to_set().contains(t));
            let j = choose|j: int| 0 <= j < texts.len() && texts[j] == t;
            assert(!names::is_system_name(texts[j]));
        }
    }
    false
}

fn without(nodes: Vec<String>, node: &str) -> (r: Vec<String>)
    ensures
        partition::texts(r@) == others(partition::texts(nodes@), node@),
{
    let ghost all = partition::texts(nodes@);
    let mut r: Vec<String> = Vec::new();
    let mut i: usize = 0;
    assert(partition::texts(r@) =~= others(all.take(0), node@));
    while i < nodes.len()
        invariant
            i <= nodes@.len(),
            all == partition::texts(nodes@),
            partition::texts(r@) == others(all.take(i as int), node@),
        decreases nodes@.len() - i,
    {
        proof {
            assert(all.take(i + 1).drop_last() =~= all.take(i as int));
            assert(all.take(i + 1).last() == nodes@[i as int]@);
        }
        if !text::same(nodes[i].as_str(), node) {
            let ghost before = r@;
            r.push(nodes[i].as_str().to_owned());
            assert(partition::texts(r@) =~= partition::texts(before).push(all[i as int]));
        }
        i += 1;
    }
    assert(all.take(i as int) =~= all);
    r
}

/// Appends what a step says of a timestamp.
fn at_ts(what: &str, ts: u64) -> (r: String)
    ensures
        r@ == what@ + text::dec(ts as nat) + ": "@,
{
    let mut s: String = String::new();
    s.append(what);
    text::push_dec(&mut s, ts);
    s.append(": ");
    assert(s@ =~= what@ + text::dec(ts as nat) + ": "@);
    s
}

impl NatsDistributedLog {
    /// Takes a node's place in the log once it is connected. Selective delivery
    /// needs the registry of interests; where that cannot be had, there is none.
    pub fn connect(
        config: &NatsConfig,
        selective_registry: Option<SelectiveDeliveryRegistry>,
        metrics: &mut MetricsRecorder,
    ) -> (r: Self)
        ensures
            r@.consumer == (match config.consumer_name {
                Some(n) => n@,
                None => DEFAULT_CONSUMER_NAME@,
            }),
            r@.subject == (match config.partition_id {
                Some(p) => partition_subject_text(p),
                None => SUBJECT_BASE@,
            }),
            r@.registry == (match selective_registry {
                Some(r) => Some(r@),
                None => None,
            }),
            final(metrics)@ == old(metrics)@ + progress_measured(0, 0, 0),
    {
        let consumer_name: String = match &config.consumer_name {
            Some(n) => n.as_str().to_owned(),
            None => DEFAULT_CONSUMER_NAME.to_owned(),
        };
        let publish_subject: String = match config.partition_id {
            Some(id) => Self::partition_subject(PartitionId(id)),
            None => SUBJECT_BASE.to_owned(),
        };
        measure_progress(metrics, 0, 0, 0);
        NatsDistributedLog { consumer_name, publish_subject, selective_registry }
    }

    /// The consumer of this node.
    pub fn consumer_name(&self) -> (r: &str)
        ensures
            r@ == self@.consumer,
    {
        self.consumer_name.as_str()
    }

    /// Takes note of a change of the interests of other nodes.
    pub fn observe(&mut self, event: InterestEvent)
        ensures
            final(self)@ == (Log {
                registry: match old(self)@.registry {
                    Some(r) => Some(
                        Registry {
                            node: r.node,
                            known: selective_delivery::after_event(r.known, event),
                        },
                    ),
                    None => None,
                },
                ..old(self)@
            }),
    {
        if let Some(mut registry) = self.selective_registry.take() {
            registry.observe(event);
            self.selective_registry = Some(registry);
        }
    }

    /// The subjects that the stream keeps.
    pub fn stream_subjects() -> (r: Vec<String>)
        ensures
            partition::texts(r@) == seq![SUBJECT_BASE@, SUBJECT_BASE@ + ".>"@],
    {
        let mut below: String = String::new();
        below.append(SUBJECT_BASE);
        below.append(".>");
        assert(below@ =~= SUBJECT_BASE@ + ".>"@);
        let mut r: Vec<String> = Vec::new();
        r.push(SUBJECT_BASE.to_owned());
        r.push(below);
        assert(partition::texts(r@) =~= seq![SUBJECT_BASE@, SUBJECT_BASE@ + ".>"@]);
        r
    }

    /// The gap between what a consumer needs and what the stream has.
    pub fn retention_gap(
        stream_messages: u64,
        first_retained_sequence: u64,
        ack_floor_stream_sequence: u64,
        delivered_stream_sequence: u64,
        from_ts: u64,
    ) -> (r: Option<RetentionGap>)
        ensures
            r == gap_in(
                stream_messages,
                first_retained_sequence,
                ack_floor_stream_sequence,
                delivered_stream_sequence,
                from_ts,
            ),
    {
        if stream_messages == 0 || first_retained_sequence == 0 {
            return None;
        }
        let expected_stream_sequence: u64 = if ack_floor_stream_sequence > 0 {
            ack_floor_stream_sequence.saturating_add(1)
        } else if delivered_stream_sequence > 0 || from_ts == 0 {
            1
        } else {
            return None;
        };
        if expected_stream_sequence < first_retained_sequence {
            Some(
                RetentionGap {
                    expected_stream_sequence,
                    first_retained_sequence,
                    ack_floor_stream_sequence,
                    delivered_stream_sequence,
                },
            )
        } else {
            None
        }
    }

    /// The subject of one partition's commits.
    pub fn partition_subject(partition: PartitionId) -> (r: String)
        ensures
            r@ == partition_subject_text(partition.0),
    {
        let mut s: String = String::new();
        s.append(SUBJECT_BASE);
        s.append(".");
        text::push_dec(&mut s, partition.0 as u64);
        assert(s@ =~= partition_subject_text(partition.0));
        s
    }

    /// The subjects that a node listens to where it relies on being sent what it
    /// is interested in.
    pub fn selective_node_subjects(node_name: &str) -> (r: Vec<String>)
        ensures
            partition::texts(r@) == seq![
                selective_delivery::subject_of(node_name@),
                SYSTEM_TABLE_SUBJECT@,
                FRONTIER_HEARTBEAT_SUBJECT@,
            ],
    {
        let mut r: Vec<String> = Vec::new();
        r.push(SelectiveDeliveryRegistry::node_subject(node_name));
        r.push(SYSTEM_TABLE_SUBJECT.to_owned());
        r.push(FRONTIER_HEARTBEAT_SUBJECT.to_owned());
        assert(partition::texts(r@) =~= seq![
            selective_delivery::subject_of(node_name@),
            SYSTEM_TABLE_SUBJECT@,
            FRONTIER_HEARTBEAT_SUBJECT@,
        ]);
        r
    }

    /// The subject that a node listens to where it only watches what it is sent.
    pub fn node_targeted_subjects(node_name: &str) -> (r: Vec<String>)
        ensures
            partition::texts(r@) == seq![selective_delivery::subject_of(node_name@)],
    {
        let mut r: Vec<String> = Vec::new();
        r.push(SelectiveDeliveryRegistry::node_subject(node_name));
        assert(partition::texts(r@) =~= seq![selective_delivery::subject_of(node_name@)]);
        r
    }

    /// The subjects that a consumer of the given partitions listens to. An empty
    /// list stands for all subjects, and is what a consumer of all partitions
    /// gets.
    pub fn filter_subjects(source_partitions: &Option<Vec<PartitionId>>) -> (r: Vec<String>)
        ensures
            partition::texts(r@) == (match source_partitions {
                Some(p) => Seq::new(p@.len(), |i: int| partition_subject_text(p@[i].0)),
                None => Seq::empty(),
            }),
    {
        let mut r: Vec<String> = Vec::new();
        if let Some(partitions) = source_partitions {
            let ghost want = Seq::new(
                partitions@.len(),
                |i: int| partition_subject_text(partitions@[i].0),
            );
            let mut i: usize = 0;
            while i < partitions.len()
                invariant
                    i <= partitions@.len(),
                    r@.len() == i,
                    forall|j: int|
                        0 <= j < i ==> (#[trigger] r@[j])@ == partition_subject_text(
                            partitions@[j].0,
                        ),
                decreases partitions@.len() - i,
            {
                r.push(Self::partition_subject(partitions[i]));
                i += 1;
            }
            assert(partition::texts(r@) =~= want);
        } else {
            assert(partition::texts(r@) =~= Seq::empty());
        }
        r
    }

    /// Whether the delta is nothing but a partition's word of how far it has
    /// come.
    pub fn is_frontier_heartbeat_delta(delta: &CommitDelta) -> (r: bool)
        ensures
            r == delta@.heartbeat(),
    {
        delta.is_frontier_heartbeat()
    }

    /// Refuses to consume where the stream no longer has what the consumer
    /// needs, and measures how far the consumer has come.
    pub fn begin_consuming(
        &self,
        metrics: &mut MetricsRecorder,
        stream_messages: u64,
        first_retained_sequence: u64,
        progress: ConsumerProgress,
        from_ts: u64,
    ) -> (r: Result<(), String>)
        ensures
            match gap_in(
                stream_messages,
                first_retained_sequence,
                progress.ack_floor_stream_sequence,
                progress.delivered_stream_sequence,
                from_ts,
            ) {
                Some(gap) => {
                    &&& r matches Err(e) && e@ == gap_text(self@.consumer, gap, from_ts)
                    &&& final(metrics)@ == old(metrics)@.push(
                        metrics::counted(
                            "DATABASE_REPLICATION_TRANSPORT_RETENTION_GAPS_TOTAL"@,
                            1,
                            metrics::unlabelled(),
                        ),
                    )
                },
                None => {
                    &&& r is Ok
                    &&& final(metrics)@ == old(metrics)@ + progress_measured(
                        progress.num_pending,
                        progress.delivered_stream_sequence,
                        progress.delivered_consumer_sequence,
                    )
                },
            },
    {
        if let Some(gap) = Self::retention_gap(
            stream_messages,
            first_retained_sequence,
            progress.ack_floor_stream_sequence,
            progress.delivered_stream_sequence,
            from_ts,
        ) {
            metrics::log_replication_transport_retention_gap(metrics);
            let mut s: String = String::new();
            s.append("NATS replication stream retention gap for consumer '");
            s.append(self.consumer_name.as_str());
            s.append("': next required stream sequence ");
            text::push_dec(&mut s, gap.expected_stream_sequence);
            s.append(" is older than first retained sequence ");
            text::push_dec(&mut s, gap.first_retained_sequence);
            s.append(" (ack_floor=");
            text::push_dec(&mut s, gap.ack_floor_stream_sequence);
            s.append(", delivered=");
            text::push_dec(&mut s, gap.delivered_stream_sequence);
            s.append(", from_ts=");
            text::push_dec(&mut s, from_ts);
            s.append("). Rebootstrap from checkpoint before serving.");
            assert(s@ =~= gap_text(self@.consumer, gap, from_ts));
            return Err(s);
        }
        measure_progress(
            metrics,
            progress.num_pending,
            progress.delivered_stream_sequence,
            progress.delivered_consumer_sequence,
        );
        Ok(())
    }

    /// Measures a message that has arrived.
    pub fn measure_message(metrics: &mut MetricsRecorder, payload_len: usize, info: Option<MessageInfo>)
        ensures
            final(metrics)@ == old(metrics)@ + message_measured(payload_len, info),
    {
        metrics::log_replication_transport_message_bytes(metrics, "consume", payload_len);
        if let Some(i) = info {
            measure_progress(metrics, i.pending, i.stream_sequence, i.consumer_sequence);
            if i.now_ns >= i.published_ns {
                if let Some(lag) = i.now_ns.checked_sub(i.published_ns) {
                    metrics::log_replication_transport_lag(metrics, lag);
                }
            }
        }
        assert(metrics@ =~= old(metrics)@ + message_measured(payload_len, info));
    }

    /// What to do with a message, given the envelope in it or why there is none.
    pub fn inspect(&self, from_ts: u64, payload: Result<&DeltaEnvelope, &str>) -> (r: MessageStep)
        ensures
            r@ == step_for(self@.consumer, from_ts, payload_of(payload)),
    {
        match payload {
            Err(e) => {
                let mut s: String = String::new();
                s.append("Failed to deserialize delta: ");
                s.append(e);
                assert(s@ =~= "Failed to deserialize delta: "@ + e@);
                MessageStep::Terminate { error: s }
            },
            Ok(envelope) => {
                if envelope.ts <= from_ts {
                    return MessageStep::Skip {
                        failure: at_ts("Failed to ack skipped NATS delta at ts=", envelope.ts),
                    };
                }
                if envelope.source_node.as_str().unicode_len() > 0 && text::same(
                    envelope.source_node.as_str(),
                    self.consumer_name.as_str(),
                ) {
                    return MessageStep::Skip {
                        failure: at_ts(
                            "Failed to ack self-published NATS delta at ts=",
                            envelope.ts,
                        ),
                    };
                }
                MessageStep::Open
            },
        }
    }

    /// Starts to publish a commit that has been serialized.
    pub fn publish(metrics: &mut MetricsRecorder, payload_len: usize) -> (r: PublishStage)
        ensures
            r@ == Stage::Broadcast,
            r.in_range(),
            final(metrics)@ == old(metrics)@.push(
                metrics::observed(
                    "DATABASE_REPLICATION_TRANSPORT_MESSAGE_BYTES"@,
                    payload_len as int,
                    seq![("phase"@, "publish"@)],
                ),
            ),
    {
        metrics::log_replication_transport_message_bytes(metrics, "publish", payload_len);
        PublishStage::Broadcast
    }

    /// The subject to publish to; none where there is nothing left to do.
    pub fn subject(&self, stage: &PublishStage) -> (r: Option<String>)
        requires
            stage.in_range(),
            stage@ matches Stage::Nodes(nodes) ==> nodes.len() > 0,
        ensures
            match r {
                Some(s) => self@.subject_at(stage@) == Some(s@),
                None => self@.subject_at(stage@) is None,
            },
    {
        match stage {
            PublishStage::Broadcast => Some(self.publish_subject.as_str().to_owned()),
            PublishStage::System => Some(SYSTEM_TABLE_SUBJECT.to_owned()),
            PublishStage::Heartbeat => Some(FRONTIER_HEARTBEAT_SUBJECT.to_owned()),
            PublishStage::Nodes { nodes, next } => Some(
                SelectiveDeliveryRegistry::node_subject(nodes[*next].as_str()),
            ),
            PublishStage::Done => None,
        }
    }

    /// What to publish next, once what was sent has been acknowledged.
    pub fn acknowledged(
        &self,
        stage: PublishStage,
        delta: &CommitDelta,
        now_ms: u64,
        metrics: &mut MetricsRecorder,
    ) -> (r: PublishStage)
        requires
            stage.in_range(),
            stage@ matches Stage::Nodes(nodes) ==> nodes.len() > 0,
        ensures
            r@ == self@.after(stage@, delta@, now_ms),
            r.in_range(),
            r@ matches Stage::Nodes(nodes) ==> nodes.len() > 0,
            final(metrics)@ == old(metrics)@ + self@.measured_after(stage@, delta@, now_ms),
    {
        match stage {
            PublishStage::Broadcast => {
                let touched = delta.touched_table_names();
                if any_system(&touched) {
                    assert(metrics@ =~= old(metrics)@ + Seq::<Measured>::empty());
                    return PublishStage::System;
                }
                if delta.is_frontier_heartbeat() {
                    assert(metrics@ =~= old(metrics)@ + Seq::<Measured>::empty());
                    return PublishStage::Heartbeat;
                }
                match &self.selective_registry {
                    Some(registry) => {
                        metrics::log_selective_delivery_broadcast_delta(metrics);
                        let selection = registry.interested_nodes_with_health(
                            metrics,
                            now_ms,
                            &touched,
                        );
                        let nodes = without(selection.interested, self.consumer_name.as_str());
                        assert(partition::texts(nodes@) == self@.interested(delta@, now_ms));
                        assert(partition::texts(nodes@).len() == nodes@.len());
                        metrics::log_selective_delivery_targeted_deliveries(metrics, nodes.len());
                        assert(metrics@ =~= old(metrics)@ + self@.measured_after(
                            Stage::Broadcast,
                            delta@,
                            now_ms,
                        ));
                        if nodes.len() == 0 {
                            return PublishStage::Done;
                        }
                        assert(partition::texts(nodes@).skip(0) =~= partition::texts(nodes@));
                        PublishStage::Nodes { nodes, next: 0 }
                    },
                    None => {
                        assert(metrics@ =~= old(metrics)@ + Seq::<Measured>::empty());
                        PublishStage::Done
                    },
                }
            },
            PublishStage::System => {
                metrics::log_selective_delivery_targeted_deliveries(metrics, 1);
                assert(metrics@ =~= old(metrics)@ + seq![deliveries(1)]);
                PublishStage::Done
            },
            PublishStage::Heartbeat => {
                metrics::log_selective_delivery_targeted_deliveries(metrics, 1);
                assert(metrics@ =~= old(metrics)@ + seq![deliveries(1)]);
                PublishStage::Done
            },
            PublishStage::Nodes { nodes, next } => {
                assert(metrics@ =~= old(metrics)@ + Seq::<Measured>::empty());
                let ghost all = partition::texts(nodes@);
                assert(all.skip(next as int).skip(1) =~= all.skip(next + 1));
                assert(all.len() == nodes@.len());
                let count: usize = nodes.len();
                if next == count - 1 {
                    return PublishStage::Done;
                }
                PublishStage::Nodes { nodes, next: next + 1 }
            },
            PublishStage::Done => {
                assert(metrics@ =~= old(metrics)@ + Seq::<Measured>::empty());
                PublishStage::Done
            },
        }
    }
}

/// A consumer that is let in finds in the stream every message it still needs:
/// nothing from the first one it needs on has been removed.
pub proof fn admitted_consumers_miss_nothing(
    messages: u64,
    first_retained: u64,
    ack_floor: u64,
    delivered: u64,
    from_ts: u64,
)
    requires
        gap_in(messages, first_retained, ack_floor, delivered, from_ts) is None,
        messages > 0,
    ensures
        next_needed(ack_floor, delivered, from_ts) matches Some(n) ==> first_retained <= n,
{
}

/// A node never takes in a commit that it published, nor one it knows already.
pub proof fn known_deltas_are_skipped(
    consumer: Seq<char>,
    from_ts: u64,
    e: envelope::Envelope,
)
    requires
        e.ts <= from_ts || (e.source_node == consumer && consumer.len() > 0),
    ensures
        step_for(consumer, from_ts, Ok(e)) is Skip,
{
}

/// A node takes in every commit of another node that is new to it.
pub proof fn new_deltas_are_opened(consumer: Seq<char>, from_ts: u64, e: envelope::Envelope)
    requires
        e.ts > from_ts,
        e.source_node != consumer,
    ensures
        step_for(consumer, from_ts, Ok(e)) is Open,
{
}

/// Whoever is interested, every commit goes to the subject that all nodes listen
/// to, and before it goes anywhere else.
pub proof fn commits_are_broadcast_first(log: Log, stage: Stage, delta: Delta, now_ms: u64)
    ensures
        log.subject_at(Stage::Broadcast) == Some(log.subject),
        log.after(stage, delta, now_ms) !is Broadcast,
{
}

proof fn lemma_others(nodes: Seq<Seq<char>>, node: Seq<char>, x: Seq<char>)
    ensures
        others(nodes, node).contains(x) == (nodes.contains(x) && x != node),
    decreases nodes.len(),
{
    let o = others(nodes, node);
    if nodes.len() > 0 {
        let rest = nodes.drop_last();
        let r = others(rest, node);
        lemma_others(rest, node, x);
        assert(nodes.contains(x) == (rest.contains(x) || x == nodes.last())) by {
            if rest.contains(x) {
                let j = choose|j: int| 0 <= j < rest.len() && rest[j] == x;
                assert(nodes[j] == x);
            }
            if nodes.contains(x) && x != nodes.last() {
                let j = choose|j: int| 0 <= j < nodes.len() && nodes[j] == x;
                assert(rest[j] == x);
            }
            assert(nodes[nodes.len() - 1] == nodes.last());
        }
        if nodes.last() != node {
            assert(o.contains(x) == (r.contains(x) || x == nodes.last())) by {
                if r.contains(x) {
                    let j = choose|j: int| 0 <= j < r.len() && r[j] == x;
                    assert(o[j] == x);
                }
                if o.contains(x) && x != nodes.last() {
                    let j = choose|j: int| 0 <= j < o.len() && o[j] == x;
                    assert(r[j] == x);
                }
                assert(o[o.len() - 1] == nodes.last());
            }
        }
    }
}

/// A commit of user tables is sent to exactly those other nodes that are known
/// to be interested in them.
pub proof fn interested_nodes_are_sent_commits(log: Log, delta: Delta, now_ms: u64, node: Seq<char>)
    requires
        log.registry is Some,
        log.registry->0.known.dom().finite(),
    ensures
        log.interested(delta, now_ms).contains(node) == ({
            let known = log.registry->0.known;
            node != log.consumer && known.contains_key(node) && known[node].fresh(now_ms)
                && known[node].covers(delta.touched())
        }),
{
    let known = log.registry->0.known;
    lemma_others(
        selective_delivery::targets(known, now_ms, delta.touched()),
        log.consumer,
        node,
    );
    selective_delivery::targets_are_fresh_and_interested(known, now_ms, delta.touched(), node);
}

/// Different partitions have different subjects.
pub proof fn partition_subjects_differ(a: u32, b: u32)
    requires
        partition_subject_text(a) == partition_subject_text(b),
    ensures
        a == b,
{
    let n = (SUBJECT_BASE@ + "."@).len() as int;
    assert(partition_subject_text(a).skip(n) =~= text::dec(a as nat));
    assert(partition_subject_text(b).skip(n) =~= text::dec(b as nat));
    text::lemma_value_of_dec(a as nat);
    text::lemma_value_of_dec(b as nat);
}

/// A consumer next needs what follows what it has acknowledged, the first message
/// where it has acknowledged none but was sent some or starts from nothing, and
/// nothing in particular otherwise.
pub proof fn consumers_go_on_where_they_were(ack_floor: u64, delivered: u64, from_ts: u64)
    ensures
        0 < ack_floor < 0xffff_ffff_ffff_ffff ==> next_needed(ack_floor, delivered, from_ts)
            == Some(ack_floor + 1),
        ack_floor == 0xffff_ffff_ffff_ffff ==> next_needed(ack_floor, delivered, from_ts) == Some(
            0xffff_ffff_ffff_ffffint,
        ),
        ack_floor == 0 && (delivered > 0 || from_ts == 0) ==> next_needed(
            ack_floor,
            delivered,
            from_ts,
        ) == Some(1int),
        ack_floor == 0 && delivered == 0 && from_ts > 0 ==> next_needed(
            ack_floor,
            delivered,
            from_ts,
        ) is None,
{
}

/// A gap is reported exactly where there are messages and the one that is needed next
/// is no longer among them, with what was needed and what there is.
pub proof fn gaps_are_what_is_missing(
    messages: u64,
    first_retained: u64,
    ack_floor: u64,
    delivered: u64,
    from_ts: u64,
)
    ensures
        gap_in(messages, first_retained, ack_floor, delivered, from_ts) is Some <==> messages > 0
            && (next_needed(ack_floor, delivered, from_ts) matches Some(n) && n < first_retained),
        gap_in(messages, first_retained, ack_floor, delivered, from_ts) matches Some(gap) ==> {
            &&& Some(gap.expected_stream_sequence as int) == next_needed(
                ack_floor,
                delivered,
                from_ts,
            )
            &&& gap.first_retained_sequence == first_retained
            &&& gap.ack_floor_stream_sequence == ack_floor
            &&& gap.delivered_stream_sequence == delivered
        },
{
}

/// A message is opened exactly where it can be read, is newer than what the consumer
/// starts from, and is not its own; one that cannot be read is not asked for again.
pub proof fn messages_are_opened_where_they_are_news(
    consumer: Seq<char>,
    from_ts: u64,
    e: envelope::Envelope,
    problem: Seq<char>,
)
    ensures
        step_for(consumer, from_ts, Err(problem)) is Terminate,
        step_for(consumer, from_ts, Ok(e)) is Open <==> e.ts > from_ts && (e.source_node.len() == 0
            || e.source_node != consumer),
        !(step_for(consumer, from_ts, Ok(e)) is Open) ==> step_for(consumer, from_ts, Ok(e))
            is Skip,
{
}

/// After everyone was told of a delta, one that touches the system's tables goes to
/// the subject for those, a heartbeat to the one for heartbeats, and any other to
/// each interested node, one after the other, until none is left.
pub proof fn deltas_are_delivered_to_whom_they_concern(log: Log, delta: Delta, now_ms: u64, nodes: Seq<Seq<char>>)
    ensures
        ({
            let system = exists|t: Seq<char>|
                #[trigger] delta.touched().contains(t) && t.len() > 0 && t[0] == '_';
            let next = log.after(Stage::Broadcast, delta, now_ms);
            let interested = log.interested(delta, now_ms);
            &&& system ==> next == Stage::System
            &&& !system && delta.heartbeat() ==> next == Stage::Heartbeat
            &&& !system && !delta.heartbeat() && interested.len() > 0 ==> next == Stage::Nodes(
                interested,
            )
            &&& !system && !delta.heartbeat() && interested.len() == 0 ==> next == Stage::Done
            &&& log.registry is None ==> interested.len() == 0
        }),
        nodes.len() > 1 ==> log.after(Stage::Nodes(nodes), delta, now_ms) == Stage::Nodes(
            nodes.skip(1),
        ),
        nodes.len() == 1 ==> log.after(Stage::Nodes(nodes), delta, now_ms) == Stage::Done,
        log.after(Stage::System, delta, now_ms) == Stage::Done,
        log.after(Stage::Heartbeat, delta, now_ms) == Stage::Done,
        log.after(Stage::Done, delta, now_ms) == Stage::Done,
{
    let touched = delta.touched();
    if exists|t: Seq<char>| #[trigger] touched.contains(t) && t.len() > 0 && t[0] == '_' {
        let t = choose|t: Seq<char>| #[trigger] touched.contains(t) && t.len() > 0 && t[0] == '_';
        assert(touched.contains(t) && names::is_system_name(t));
    }
    assert(nodes.skip(1).len() == if nodes.len() > 0 {
        nodes.len() - 1
    } else {
        0
    } || nodes.len() == 0);
}

/// Each delivery has a subject of its own, and nothing is sent once all is delivered.
pub proof fn deliveries_have_their_subjects(log: Log, nodes: Seq<Seq<char>>, partition: u32)
    ensures
        log.subject_at(Stage::Broadcast) == Some(log.subject),
        log.subject_at(Stage::System) == Some("convex.commits.system"@),
        log.subject_at(Stage::Heartbeat) == Some("convex.commits.frontier_heartbeat"@),
        nodes.len() > 0 ==> log.subject_at(Stage::Nodes(nodes)) == Some(
            "convex.commits.node"@ + "."@ + nodes[0],
        ),
        log.subject_at(Stage::Done) is None,
        partition_subject_text(partition) == "convex.commits"@ + "."@ + text::dec(partition as nat),
{
}

/// What is measured of a message: its size, where it stands, and how late it is
/// where the clocks allow that to be said.
pub proof fn messages_are_measured(payload_len: usize, info: MessageInfo)
    ensures
        message_measured(payload_len, None).len() == 1,
        message_measured(payload_len, None)[0].amount == metrics::Amount::Count(
            payload_len as i128,
        ),
        ({
            let samples = message_measured(payload_len, Some(info));
            let late = info.now_ns - info.published_ns;
            &&& samples[0].amount == metrics::Amount::Count(payload_len as i128)
            &&& samples[1].amount == metrics::Amount::Count(info.pending as i128)
            &&& samples[2].amount == metrics::Amount::Count(info.stream_sequence as i128)
            &&& samples[3].amount == metrics::Amount::Count(info.consumer_sequence as i128)
            &&& samples.len() == if 0 <= late <= i128::MAX {
                5int
            } else {
                4
            }
            &&& 0 <= late <= i128::MAX ==> samples[4].amount == metrics::Amount::Nanos(late as i128)
        }),
{
}

/// A gap is told with what was needed, what there is, and how far the consumer had
/// come.
pub proof fn gaps_are_told_in_full(consumer: Seq<char>, gap: RetentionGap, from_ts: u64)
    ensures
        gap_text(consumer, gap, from_ts) == "NATS replication stream retention gap for consumer '"@
            + consumer + "': next required stream sequence "@
            + text::dec(gap.expected_stream_sequence as nat)
            + " is older than first retained sequence "@
            + text::dec(gap.first_retained_sequence as nat) + " (ack_floor="@
            + text::dec(gap.ack_floor_stream_sequence as nat) + ", delivered="@
            + text::dec(gap.delivered_stream_sequence as nat) + ", from_ts="@
            + text::dec(from_ts as nat) + "). Rebootstrap from checkpoint before serving."@,
{
}

} // verus!
