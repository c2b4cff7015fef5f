//! Everything the database measures.
//!
//! A measurement is written into a [`MetricsRecorder`] as a [`Sample`]: the
//! metric's registered name, whether it counts, sets a level or adds to a
//! distribution, the amount, and the labels. Amounts are integers; durations
//! are kept in nanoseconds. A recorder keeps its samples in the order in which
//! they were taken, and whoever exports the metrics drains it.
use crate::partition::PartitionId;
use crate::text;
use vstd::prelude::*;
use vstd::string::*;

pub mod search;
pub mod vector;

verus! {

/// What a sample does to its metric.
#[derive(Clone, Copy, Debug, PartialEq, Eq, Structural)]
pub enum SampleKind {
    /// Adds to a counter.
    Counter,
    /// Sets a gauge.
    Gauge,
    /// Moves a gauge by the amount.
    GaugeChange,
    /// Adds an observation to a distribution.
    Distribution,
}

/// How much was measured.
#[derive(Clone, Copy, Debug, PartialEq, Eq, Structural)]
pub enum Amount {
    /// A plain number.
    Count(i128),
    /// A duration, in nanoseconds; negative when time ran backwards.
    Nanos(i128),
}

/// A label of a sample.
#[derive(Clone, Debug)]
pub struct Label {
    pub name: String,
    pub value: String,
}

impl View for Label {
    type V = (Seq<char>, Seq<char>);

    open spec fn view(&self) -> (Seq<char>, Seq<char>) {
        (self.name@, self.value@)
    }
}

/// One measurement.
#[derive(Clone, Debug)]
pub struct Sample {
    pub metric: &'static str,
    pub kind: SampleKind,
    pub amount: Amount,
    pub labels: Vec<Label>,
}

/// A measurement, as contracts speak of it.
#[verifier::ext_equal]
pub struct Measured {
    pub metric: Seq<char>,
    pub kind: SampleKind,
    pub amount: Amount,
    pub labels: Seq<(Seq<char>, Seq<char>)>,
}

/// The labels, as contracts speak of them.
pub open spec fn labels_of(labels: Seq<Label>) -> Seq<(Seq<char>, Seq<char>)> {
    labels.map_values(|l: Label| l@)
}

impl View for Sample {
    type V = Measured;

    open spec fn view(&self) -> Measured {
        Measured {
            metric: self.metric@,
            kind: self.kind,
            amount: self.amount,
            labels: labels_of(self.labels@),
        }
    }
}

/// A counter that grew by `n`.
pub open spec fn counted(metric: Seq<char>, n: int, labels: Seq<(Seq<char>, Seq<char>)>) -> Measured {
    Measured { metric, kind: SampleKind::Counter, amount: Amount::Count(n as i128), labels }
}

/// A gauge that was set to `n`.
pub open spec fn gauged(metric: Seq<char>, n: int, labels: Seq<(Seq<char>, Seq<char>)>) -> Measured {
    Measured { metric, kind: SampleKind::Gauge, amount: Amount::Count(n as i128), labels }
}

/// An observation of `n`.
pub open spec fn observed(metric: Seq<char>, n: int, labels: Seq<(Seq<char>, Seq<char>)>) -> Measured {
    Measured { metric, kind: SampleKind::Distribution, amount: Amount::Count(n as i128), labels }
}

/// An observation of a duration of `nanos` nanoseconds.
pub open spec fn timed(metric: Seq<char>, nanos: int, labels: Seq<(Seq<char>, Seq<char>)>) -> Measured {
    Measured { metric, kind: SampleKind::Distribution, amount: Amount::Nanos(nanos as i128), labels }
}

/// No labels.
pub open spec fn unlabelled() -> Seq<(Seq<char>, Seq<char>)> {
    Seq::empty()
}

/// A `true` or `false` label value.
pub open spec fn flag_text(b: bool) -> Seq<char> {
    if b {
        "true"@
    } else {
        "false"@
    }
}

/// How a `status` label reads.
pub open spec fn status_text(success: bool) -> Seq<char> {
    if success {
        "success"@
    } else {
        "error"@
    }
}

/// Collects measurements in the order in which they are taken.
pub struct MetricsRecorder {
    samples: Vec<Sample>,
}

impl View for MetricsRecorder {
    type V = Seq<Measured>;

    closed spec fn view(&self) -> Seq<Measured> {
        self.samples@.map_values(|s: Sample| s@)
    }
}

impl MetricsRecorder {
    /// A recorder with nothing in it.
    pub fn new() -> (r: Self)
        ensures
            r@ == Seq::<Measured>::empty(),
    {
        let r = MetricsRecorder { samples: Vec::new() };
        assert(r@ =~= Seq::<Measured>::empty());
        r
    }

    /// Adds a measurement.
    pub fn record(&mut self, sample: Sample)
        ensures
            final(self)@ == old(self)@.push(sample@),
    {
        let ghost before = self@;
        self.samples.push(sample);
        assert(self@ =~= before.push(sample@));
    }

    /// Hands out the measurements taken so far and forgets them.
    pub fn drain(&mut self) -> (r: Vec<Sample>)
        ensures
            r@.map_values(|s: Sample| s@) == old(self)@,
            final(self)@ == Seq::<Measured>::empty(),
    {
        let mut out: Vec<Sample> = Vec::new();
        std::mem::swap(&mut out, &mut self.samples);
        assert(self@ =~= Seq::<Measured>::empty());
        out
    }

    /// Adds `n` to a counter.
    fn count(&mut self, metric: &'static str, n: u64, labels: Vec<Label>)
        ensures
            final(self)@ == old(self)@.push(counted(metric@, n as int, labels_of(labels@))),
    {
        self.record(Sample { metric, kind: SampleKind::Counter, amount: Amount::Count(n as i128), labels });
    }

    /// Sets a gauge to `n`.
    fn gauge(&mut self, metric: &'static str, n: u64, labels: Vec<Label>)
        ensures
            final(self)@ == old(self)@.push(gauged(metric@, n as int, labels_of(labels@))),
    {
        self.record(Sample { metric, kind: SampleKind::Gauge, amount: Amount::Count(n as i128), labels });
    }

    /// Adds an observation of `n`.
    fn observe(&mut self, metric: &'static str, n: u64, labels: Vec<Label>)
        ensures
            final(self)@ == old(self)@.push(observed(metric@, n as int, labels_of(labels@))),
    {
        self.record(
            Sample { metric, kind: SampleKind::Distribution, amount: Amount::Count(n as i128), labels },
        );
    }

    /// Adds an observation of a duration.
    fn time(&mut self, metric: &'static str, nanos: i128, labels: Vec<Label>)
        ensures
            final(self)@ == old(self)@.push(timed(metric@, nanos as int, labels_of(labels@))),
    {
        self.record(
            Sample { metric, kind: SampleKind::Distribution, amount: Amount::Nanos(nanos), labels },
        );
    }
}

/// A label made of two texts.
pub(crate) fn label(name: &str, value: &str) -> (r: Label)
    ensures
        r@ == (name@, value@),
{
    Label { name: name.to_owned(), value: value.to_owned() }
}

/// No labels.
fn no_labels() -> (r: Vec<Label>)
    ensures
        labels_of(r@) == unlabelled(),
{
    let r: Vec<Label> = Vec::new();
    assert(labels_of(r@) =~= unlabelled());
    r
}

/// One label.
fn one_label(a: Label) -> (r: Vec<Label>)
    ensures
        labels_of(r@) == seq![a@],
{
    let mut r: Vec<Label> = Vec::new();
    r.push(a);
    assert(labels_of(r@) =~= seq![a@]);
    r
}

/// Two labels.
fn two_labels(a: Label, b: Label) -> (r: Vec<Label>)
    ensures
        labels_of(r@) == seq![a@, b@],
{
    let mut r: Vec<Label> = Vec::new();
    r.push(a);
    r.push(b);
    assert(labels_of(r@) =~= seq![a@, b@]);
    r
}

/// The number of a partition as a label value.
pub open spec fn number_text(partition: PartitionId) -> Seq<char> {
    text::dec(partition.0 as nat)
}

fn number_of(partition: PartitionId) -> (r: String)
    ensures
        r@ == number_text(partition),
{
    let mut s: String = String::new();
    text::push_dec(&mut s, partition.0 as u64);
    assert(s@ =~= number_text(partition));
    s
}

fn partition_label(partition: PartitionId) -> (r: Label)
    ensures
        r@ == ("partition"@, number_text(partition)),
{
    let value = number_of(partition);
    label("partition", value.as_str())
}

fn source_partition_label(partition: PartitionId) -> (r: Label)
    ensures
        r@ == ("source_partition"@, number_text(partition)),
{
    let value = number_of(partition);
    label("source_partition", value.as_str())
}

fn outcome_label(outcome: &'static str) -> (r: Label)
    ensures
        r@ == ("outcome"@, outcome@),
{
    label("outcome", outcome)
}

fn phase_label(phase: &'static str) -> (r: Label)
    ensures
        r@ == ("phase"@, phase@),
{
    label("phase", phase)
}

fn commit_path_label(path: &'static str) -> (r: Label)
    ensures
        r@ == ("path"@, path@),
{
    label("path", path)
}

fn commit_stage_label(stage: &'static str) -> (r: Label)
    ensures
        r@ == ("stage"@, stage@),
{
    label("stage", stage)
}

fn tso_operation_label(operation: &'static str) -> (r: Label)
    ensures
        r@ == ("operation"@, operation@),
{
    label("operation", operation)
}

fn status_label(success: bool) -> (r: Label)
    ensures
        r@ == ("status"@, status_text(success)),
{
    if success {
        label("status", "success")
    } else {
        label("status", "error")
    }
}

fn flag_label(name: &'static str, flag: bool) -> (r: Label)
    ensures
        r@ == (name@, flag_text(flag)),
{
    if flag {
        label(name, "true")
    } else {
        label(name, "false")
    }
}

/// What a timer says about how the timed work ended.
#[derive(Clone, Copy, Debug, PartialEq, Eq, Structural)]
pub enum TimerStatus {
    /// The timer carries no status label.
    Plain,
    /// Work that is not finished has failed.
    ErrorUnlessFinished,
    /// Work that is not finished was canceled.
    CanceledUnlessFinished,
}

/// A running timer: the metric it will be added to and the labels it will
/// carry. Whoever holds it knows when it was started and says how long it ran.
#[derive(Debug)]
pub struct Timer {
    pub metric: &'static str,
    pub labels: Vec<Label>,
    pub status: TimerStatus,
}

/// A running timer, as contracts speak of it.
#[verifier::ext_equal]
pub struct Timing {
    pub metric: Seq<char>,
    pub labels: Seq<(Seq<char>, Seq<char>)>,
    pub status: TimerStatus,
}

impl View for Timer {
    type V = Timing;

    open spec fn view(&self) -> Timing {
        Timing { metric: self.metric@, labels: labels_of(self.labels@), status: self.status }
    }
}

/// A timer without a status.
pub open spec fn plain_timing(metric: Seq<char>, labels: Seq<(Seq<char>, Seq<char>)>) -> Timing {
    Timing { metric, labels, status: TimerStatus::Plain }
}

/// A timer whose work has failed unless it finishes.
pub open spec fn status_timing(metric: Seq<char>, labels: Seq<(Seq<char>, Seq<char>)>) -> Timing {
    Timing { metric, labels, status: TimerStatus::ErrorUnlessFinished }
}

/// A timer whose work was canceled unless it finishes.
pub open spec fn cancelable_timing(metric: Seq<char>, labels: Seq<(Seq<char>, Seq<char>)>) -> Timing {
    Timing { metric, labels, status: TimerStatus::CanceledUnlessFinished }
}

impl Timing {
    /// The labels of the sample, given whether the timed work finished.
    pub open spec fn final_labels(self, finished: bool) -> Seq<(Seq<char>, Seq<char>)> {
        match self.status {
            TimerStatus::Plain => self.labels,
            TimerStatus::ErrorUnlessFinished => self.labels.push(("status"@, status_text(finished))),
            TimerStatus::CanceledUnlessFinished => self.labels.push(
                (
                    "status"@,
                    if finished {
                        "success"@
                    } else {
                        "canceled"@
                    },
                ),
            ),
        }
    }

    /// The sample this timer leaves behind.
    pub open spec fn sample(self, nanos: int, finished: bool) -> Measured {
        timed(self.metric, nanos, self.final_labels(finished))
    }
}

impl Timer {
    fn stop(self, metrics: &mut MetricsRecorder, nanos: u64, finished: bool)
        ensures
            final(metrics)@ == old(metrics)@.push(self@.sample(nanos as int, finished)),
    {
        let status = self.status;
        let metric = self.metric;
        let mut labels = self.labels;
        let ghost before = labels@;
        match status {
            TimerStatus::Plain => {},
            TimerStatus::ErrorUnlessFinished => {
                labels.push(status_label(finished));
            },
            TimerStatus::CanceledUnlessFinished => {
                if finished {
                    labels.push(label("status", "success"));
                } else {
                    labels.push(label("status", "canceled"));
                }
            },
        }
        assert(labels_of(labels@) =~= self@.final_labels(finished));
        metrics.time(metric, nanos as i128, labels);
    }

    /// Ends the timer for work that finished after `nanos` nanoseconds.
    pub fn finish(self, metrics: &mut MetricsRecorder, nanos: u64)
        ensures
            final(metrics)@ == old(metrics)@.push(self@.sample(nanos as int, true)),
    {
        self.stop(metrics, nanos, true);
    }

    /// Ends the timer for work that was given up after `nanos` nanoseconds.
    pub fn abandon(self, metrics: &mut MetricsRecorder, nanos: u64)
        ensures
            final(metrics)@ == old(metrics)@.push(self@.sample(nanos as int, false)),
    {
        self.stop(metrics, nanos, false);
    }
}

/// What kind of index a search index is.
#[derive(Clone, Copy, Debug, PartialEq, Eq, Structural)]
pub enum SearchType {
    Text,
    Vector,
}

impl SearchType {
    /// The label of this search type.
    pub open spec fn label_text(self) -> (Seq<char>, Seq<char>) {
        (
            "search_type"@,
            match self {
                SearchType::Text => "text"@,
                SearchType::Vector => "vector"@,
            },
        )
    }

    fn tag(self) -> (r: Label)
        ensures
            r@ == self.label_text(),
    {
        match self {
            SearchType::Text => label("search_type", "text"),
            SearchType::Vector => label("search_type", "vector"),
        }
    }
}

/// What retention looks after.
#[derive(Clone, Copy, Debug, PartialEq, Eq, Structural)]
pub enum RetentionType {
    Document,
    Index,
}

/// Who waits for the search index writer lock.
#[derive(Clone, Copy, Debug, PartialEq, Eq, Structural)]
pub enum SearchWriterLockWaiter {
    Compactor,
    Flusher,
}

impl SearchWriterLockWaiter {
    /// The label of this waiter.
    pub open spec fn label_text(self) -> (Seq<char>, Seq<char>) {
        (
            "waiter"@,
            match self {
                SearchWriterLockWaiter::Compactor => "compactor"@,
                SearchWriterLockWaiter::Flusher => "flusher"@,
            },
        )
    }

    fn tag(self) -> (r: Label)
        ensures
            r@ == self.label_text(),
    {
        match self {
            SearchWriterLockWaiter::Compactor => label("waiter", "compactor"),
            SearchWriterLockWaiter::Flusher => label("waiter", "flusher"),
        }
    }
}

/// Whether committing a search index had to merge concurrent changes.
#[derive(Clone, Copy, Debug, PartialEq, Eq, Structural)]
pub enum SearchIndexMergeType {
    Unknown,
    Required,
    NotRequired,
}

impl SearchIndexMergeType {
    /// The label of this kind of merge.
    pub open spec fn label_text(self) -> (Seq<char>, Seq<char>) {
        (
            "merge_required"@,
            match self {
                SearchIndexMergeType::Unknown => "unknown"@,
                SearchIndexMergeType::Required => "required"@,
                SearchIndexMergeType::NotRequired => "not_required"@,
            },
        )
    }

    fn metric_label(self) -> (r: Label)
        ensures
            r@ == self.label_text(),
    {
        match self {
            SearchIndexMergeType::Unknown => label("merge_required", "unknown"),
            SearchIndexMergeType::Required => label("merge_required", "required"),
            SearchIndexMergeType::NotRequired => label("merge_required", "not_required"),
        }
    }
}

/// Why search segments are compacted.
#[derive(Clone, Copy, Debug, PartialEq, Eq, Structural)]
pub enum CompactionReason {
    SmallSegments,
    LargeSegments,
    Deletes,
}

impl CompactionReason {
    /// The label of this reason.
    pub open spec fn label_text(self) -> (Seq<char>, Seq<char>) {
        (
            "compaction_reason"@,
            match self {
                CompactionReason::SmallSegments => "small"@,
                CompactionReason::LargeSegments => "large"@,
                CompactionReason::Deletes => "deletes"@,
            },
        )
    }

    fn metric_label(self) -> (r: Label)
        ensures
            r@ == self.label_text(),
    {
        match self {
            CompactionReason::SmallSegments => label("compaction_reason", "small"),
            CompactionReason::LargeSegments => label("compaction_reason", "large"),
            CompactionReason::Deletes => label("compaction_reason", "deletes"),
        }
    }
}

/// Why a request is turned away, as the client is told.
#[derive(Clone, Copy, Debug, PartialEq, Eq, Structural)]
pub enum ErrorClass {
    /// Too much is asked of the server at once.
    Overloaded,
    /// The server is at fault, in the course of its operation.
    OperationalInternalServerError,
}

/// An error with a code for machines and a message for people.
#[derive(Clone, Copy, Debug)]
pub struct ErrorMetadata {
    pub class: ErrorClass,
    pub short_msg: &'static str,
    pub msg: &'static str,
}

/// Whether this node is currently the Raft leader for the partition (1 or 0).
pub fn log_raft_is_leader(metrics: &mut MetricsRecorder, partition: PartitionId, is_leader: bool)
    ensures
        final(metrics)@ == old(metrics)@.push(gauged("DATABASE_RAFT_IS_LEADER_INFO"@, (if is_leader { 1int } else { 0int }), seq![("partition"@, number_text(partition))])),
{
    metrics.gauge("DATABASE_RAFT_IS_LEADER_INFO", if is_leader { 1 } else { 0 }, one_label(partition_label(partition)));
}

/// Current known Raft leader node ID for the partition (0 if unknown).
pub fn log_raft_leader_id(metrics: &mut MetricsRecorder, partition: PartitionId, leader_id: u64)
    ensures
        final(metrics)@ == old(metrics)@.push(gauged("DATABASE_RAFT_LEADER_ID_INFO"@, leader_id as int, seq![("partition"@, number_text(partition))])),
{
    metrics.gauge("DATABASE_RAFT_LEADER_ID_INFO", leader_id, one_label(partition_label(partition)));
}

/// Number of observed Raft leader changes for a partition.
pub fn log_raft_leader_change(metrics: &mut MetricsRecorder, partition: PartitionId)
    ensures
        final(metrics)@ == old(metrics)@.push(counted("DATABASE_RAFT_LEADER_CHANGES_TOTAL"@, 1, seq![("partition"@, number_text(partition))])),
{
    metrics.count("DATABASE_RAFT_LEADER_CHANGES_TOTAL", 1, one_label(partition_label(partition)));
}

/// Current Raft term for the partition.
pub fn log_raft_term(metrics: &mut MetricsRecorder, partition: PartitionId, term: u64)
    ensures
        final(metrics)@ == old(metrics)@.push(gauged("DATABASE_RAFT_TERM_INFO"@, term as int, seq![("partition"@, number_text(partition))])),
{
    metrics.gauge("DATABASE_RAFT_TERM_INFO", term, one_label(partition_label(partition)));
}

/// Current committed Raft log index for the partition.
pub fn log_raft_committed_index(metrics: &mut MetricsRecorder, partition: PartitionId, committed_index: u64)
    ensures
        final(metrics)@ == old(metrics)@.push(gauged("DATABASE_RAFT_COMMITTED_INDEX_INFO"@, committed_index as int, seq![("partition"@, number_text(partition))])),
{
    metrics.gauge("DATABASE_RAFT_COMMITTED_INDEX_INFO", committed_index, one_label(partition_label(partition)));
}

/// Current applied Raft log index for the partition.
pub fn log_raft_applied_index(metrics: &mut MetricsRecorder, partition: PartitionId, applied_index: u64)
    ensures
        final(metrics)@ == old(metrics)@.push(gauged("DATABASE_RAFT_APPLIED_INDEX_INFO"@, applied_index as int, seq![("partition"@, number_text(partition))])),
{
    metrics.gauge("DATABASE_RAFT_APPLIED_INDEX_INFO", applied_index, one_label(partition_label(partition)));
}

/// Latest applied replication frontier timestamp for a source partition on this
/// node.
pub fn log_replication_frontier_ts(metrics: &mut MetricsRecorder, source_partition: PartitionId, ts: u64)
    ensures
        final(metrics)@ == old(metrics)@.push(gauged("DATABASE_REPLICATION_FRONTIER_TS_INFO"@, ts as int, seq![("source_partition"@, number_text(source_partition))])),
{
    metrics.gauge("DATABASE_REPLICATION_FRONTIER_TS_INFO", ts, one_label(source_partition_label(source_partition)));
}

/// Latest source-partition write timestamp that is safe for local strong reads
/// on this node.
pub fn log_replication_write_frontier_ts(metrics: &mut MetricsRecorder, source_partition: PartitionId, ts: u64)
    ensures
        final(metrics)@ == old(metrics)@.push(gauged("DATABASE_REPLICATION_WRITE_FRONTIER_TS_INFO"@, ts as int, seq![("source_partition"@, number_text(source_partition))])),
{
    metrics.gauge("DATABASE_REPLICATION_WRITE_FRONTIER_TS_INFO", ts, one_label(source_partition_label(source_partition)));
}

/// Time spent waiting for remote read frontiers before a read/commit can
/// proceed.
pub fn log_remote_read_frontier_wait_seconds(metrics: &mut MetricsRecorder, outcome: &'static str, nanos: u64)
    ensures
        final(metrics)@ == old(metrics)@.push(timed("DATABASE_REMOTE_READ_FRONTIER_WAIT_SECONDS"@, nanos as int, seq![("outcome"@, outcome@)])),
{
    metrics.time("DATABASE_REMOTE_READ_FRONTIER_WAIT_SECONDS", nanos as i128, one_label(outcome_label(outcome)));
}

/// Number of remote replication frontier waits that timed out.
pub fn log_remote_read_frontier_wait_timeout(metrics: &mut MetricsRecorder)
    ensures
        final(metrics)@ == old(metrics)@.push(counted("DATABASE_REMOTE_READ_FRONTIER_WAIT_TIMEOUTS_TOTAL"@, 1, unlabelled())),
{
    metrics.count("DATABASE_REMOTE_READ_FRONTIER_WAIT_TIMEOUTS_TOTAL", 1, no_labels());
}

/// Number of unique tables currently tracked as selectively interesting on this
/// node.
pub fn log_selective_delivery_interested_tables(metrics: &mut MetricsRecorder, num_tables: usize)
    ensures
        final(metrics)@ == old(metrics)@.push(gauged("DATABASE_SELECTIVE_DELIVERY_INTERESTED_TABLES_INFO"@, num_tables as int, unlabelled())),
{
    metrics.gauge("DATABASE_SELECTIVE_DELIVERY_INTERESTED_TABLES_INFO", num_tables as u64, no_labels());
}

/// Total number of targeted selective-delivery shadow publishes sent to
/// node-specific subjects.
pub fn log_selective_delivery_targeted_deliveries(metrics: &mut MetricsRecorder, num_deliveries: usize)
    ensures
        final(metrics)@ == old(metrics)@.push(counted("DATABASE_SELECTIVE_DELIVERY_TARGETED_DELIVERIES_TOTAL"@, num_deliveries as int, unlabelled())),
{
    metrics.count("DATABASE_SELECTIVE_DELIVERY_TARGETED_DELIVERIES_TOTAL", num_deliveries as u64, no_labels());
}

/// Total number of node-targeted selective-delivery shadow deltas consumed.
pub fn log_selective_delivery_shadow_receive(metrics: &mut MetricsRecorder)
    ensures
        final(metrics)@ == old(metrics)@.push(counted("DATABASE_SELECTIVE_DELIVERY_SHADOW_RECEIVES_TOTAL"@, 1, unlabelled())),
{
    metrics.count("DATABASE_SELECTIVE_DELIVERY_SHADOW_RECEIVES_TOTAL", 1, no_labels());
}

/// Number of registrations of interest that were too old to rely on when the targets
/// of a delta were last chosen.
pub fn log_selective_delivery_stale_registrations(metrics: &mut MetricsRecorder, num_stale: usize)
    ensures
        final(metrics)@ == old(metrics)@.push(gauged("DATABASE_SELECTIVE_DELIVERY_STALE_REGISTRATIONS_INFO"@, num_stale as int, unlabelled())),
{
    metrics.gauge("DATABASE_SELECTIVE_DELIVERY_STALE_REGISTRATIONS_INFO", num_stale as u64, no_labels());
}

/// Total number of nodes that were considered as targets of deltas, and of those
/// among them that were interested.
pub fn log_selective_delivery_interest_hit(metrics: &mut MetricsRecorder, num_known: usize, num_interested: usize)
    ensures
        final(metrics)@ == old(metrics)@.push(
            counted("DATABASE_SELECTIVE_DELIVERY_INTEREST_CANDIDATES_TOTAL"@, num_known as int, unlabelled()),
        ).push(
            counted("DATABASE_SELECTIVE_DELIVERY_INTEREST_HITS_TOTAL"@, num_interested as int, unlabelled()),
        ),
{
    metrics.count("DATABASE_SELECTIVE_DELIVERY_INTEREST_CANDIDATES_TOTAL", num_known as u64, no_labels());
    metrics.count("DATABASE_SELECTIVE_DELIVERY_INTEREST_HITS_TOTAL", num_interested as u64, no_labels());
}

/// Total number of deltas of user tables that went to every node before any
/// targeted publish.
pub fn log_selective_delivery_broadcast_delta(metrics: &mut MetricsRecorder)
    ensures
        final(metrics)@ == old(metrics)@.push(counted("DATABASE_SELECTIVE_DELIVERY_BROADCAST_DELTAS_TOTAL"@, 1, unlabelled())),
{
    metrics.count("DATABASE_SELECTIVE_DELIVERY_BROADCAST_DELTAS_TOTAL", 1, no_labels());
}

/// Total number of subscriptions invalidated because a write met their tables.
pub fn log_conservative_invalidation(metrics: &mut MetricsRecorder)
    ensures
        final(metrics)@ == old(metrics)@.push(counted("DATABASE_CONSERVATIVE_INVALIDATIONS_TOTAL"@, 1, unlabelled())),
{
    metrics.count("DATABASE_CONSERVATIVE_INVALIDATIONS_TOTAL", 1, no_labels());
}

/// Number of partitions that a subscription is registered with.
pub fn log_invalidation_registration(metrics: &mut MetricsRecorder, num_shards: usize)
    ensures
        final(metrics)@ == old(metrics)@.push(observed("DATABASE_INVALIDATION_REGISTRATION_SHARDS_TOTAL"@, num_shards as int, unlabelled())),
{
    metrics.observe("DATABASE_INVALIDATION_REGISTRATION_SHARDS_TOTAL", num_shards as u64, no_labels());
}

/// Version of the placement metadata that was last installed.
pub fn log_placement_metadata_refresh(metrics: &mut MetricsRecorder, version: u64)
    ensures
        final(metrics)@ == old(metrics)@.push(gauged("DATABASE_PLACEMENT_METADATA_VERSION_INFO"@, version as int, unlabelled())),
{
    metrics.gauge("DATABASE_PLACEMENT_METADATA_VERSION_INFO", version, no_labels());
}

/// Number of attempts to start a fresh replica from a checkpoint, by status.
pub fn log_replica_bootstrap_result(metrics: &mut MetricsRecorder, success: bool)
    ensures
        final(metrics)@ == old(metrics)@.push(counted("REPLICA_BOOTSTRAP_TOTAL"@, 1, seq![("status"@, status_text(success))])),
{
    metrics.count("REPLICA_BOOTSTRAP_TOTAL", 1, one_label(status_label(success)));
}

/// Latest repeatable timestamp currently visible on this node.
pub fn log_latest_repeatable_ts(metrics: &mut MetricsRecorder, ts: u64)
    ensures
        final(metrics)@ == old(metrics)@.push(gauged("DATABASE_LATEST_REPEATABLE_TS_INFO"@, ts as int, unlabelled())),
{
    metrics.gauge("DATABASE_LATEST_REPEATABLE_TS_INFO", ts, no_labels());
}

/// Latest repeatable timestamp durably persisted for this node.
pub fn log_persisted_max_repeatable_ts(metrics: &mut MetricsRecorder, ts: u64)
    ensures
        final(metrics)@ == old(metrics)@.push(gauged("DATABASE_PERSISTED_MAX_REPEATABLE_TS_INFO"@, ts as int, unlabelled())),
{
    metrics.gauge("DATABASE_PERSISTED_MAX_REPEATABLE_TS_INFO", ts, no_labels());
}

/// Latest checkpoint timestamp successfully written by this node.
pub fn log_checkpoint_written_ts(metrics: &mut MetricsRecorder, ts: u64)
    ensures
        final(metrics)@ == old(metrics)@.push(gauged("DATABASE_CHECKPOINT_WRITTEN_TS_INFO"@, ts as int, unlabelled())),
{
    metrics.gauge("DATABASE_CHECKPOINT_WRITTEN_TS_INFO", ts, no_labels());
}

/// Number of checkpoint write attempts by status.
pub fn log_checkpoint_write_result(metrics: &mut MetricsRecorder, success: bool)
    ensures
        final(metrics)@ == old(metrics)@.push(counted("DATABASE_CHECKPOINT_WRITE_TOTAL"@, 1, seq![("status"@, status_text(success))])),
{
    metrics.count("DATABASE_CHECKPOINT_WRITE_TOTAL", 1, one_label(status_label(success)));
}

/// Latest checkpoint timestamp successfully loaded by this node.
pub fn log_checkpoint_loaded_ts(metrics: &mut MetricsRecorder, ts: u64)
    ensures
        final(metrics)@ == old(metrics)@.push(gauged("DATABASE_CHECKPOINT_LOADED_TS_INFO"@, ts as int, unlabelled())),
{
    metrics.gauge("DATABASE_CHECKPOINT_LOADED_TS_INFO", ts, no_labels());
}

/// Number of checkpoint load attempts by status.
pub fn log_checkpoint_load_result(metrics: &mut MetricsRecorder, success: bool)
    ensures
        final(metrics)@ == old(metrics)@.push(counted("DATABASE_CHECKPOINT_LOAD_TOTAL"@, 1, seq![("status"@, status_text(success))])),
{
    metrics.count("DATABASE_CHECKPOINT_LOAD_TOTAL", 1, one_label(status_label(success)));
}

/// Latest checkpoint timestamp successfully installed into this node.
pub fn log_snapshot_installed_ts(metrics: &mut MetricsRecorder, ts: u64)
    ensures
        final(metrics)@ == old(metrics)@.push(gauged("DATABASE_SNAPSHOT_INSTALLED_TS_INFO"@, ts as int, unlabelled())),
{
    metrics.gauge("DATABASE_SNAPSHOT_INSTALLED_TS_INFO", ts, no_labels());
}

/// Number of snapshot install attempts by status.
pub fn log_snapshot_install_result(metrics: &mut MetricsRecorder, success: bool)
    ensures
        final(metrics)@ == old(metrics)@.push(counted("DATABASE_SNAPSHOT_INSTALL_TOTAL"@, 1, seq![("status"@, status_text(success))])),
{
    metrics.count("DATABASE_SNAPSHOT_INSTALL_TOTAL", 1, one_label(status_label(success)));
}

/// Time to persist and apply an incoming Raft snapshot.
pub fn raft_snapshot_apply_timer() -> (r: Timer)
    ensures
        r@ == status_timing("DATABASE_RAFT_SNAPSHOT_APPLY_SECONDS"@, unlabelled()),
{
    Timer { metric: "DATABASE_RAFT_SNAPSHOT_APPLY_SECONDS", labels: no_labels(), status: TimerStatus::ErrorUnlessFinished }
}

/// Size of incoming Raft snapshot payloads applied by this node.
pub fn log_raft_snapshot_apply_bytes(metrics: &mut MetricsRecorder, bytes: usize)
    ensures
        final(metrics)@ == old(metrics)@.push(observed("DATABASE_RAFT_SNAPSHOT_APPLY_BYTES"@, bytes as int, unlabelled())),
{
    metrics.observe("DATABASE_RAFT_SNAPSHOT_APPLY_BYTES", bytes as u64, no_labels());
}

/// Number of writes rejected because this node is not the Raft leader for the
/// partition.
pub fn log_write_rejected_not_leader(metrics: &mut MetricsRecorder, partition: PartitionId)
    ensures
        final(metrics)@ == old(metrics)@.push(counted("DATABASE_WRITE_REJECTED_NOT_LEADER_TOTAL"@, 1, seq![("partition"@, number_text(partition))])),
{
    metrics.count("DATABASE_WRITE_REJECTED_NOT_LEADER_TOTAL", 1, one_label(partition_label(partition)));
}

/// Number of 2PC coordinator decisions by outcome.
pub fn log_two_phase_decision(metrics: &mut MetricsRecorder, outcome: &'static str)
    ensures
        final(metrics)@ == old(metrics)@.push(counted("DATABASE_TWO_PHASE_COORDINATOR_DECISIONS_TOTAL"@, 1, seq![("outcome"@, outcome@)])),
{
    metrics.count("DATABASE_TWO_PHASE_COORDINATOR_DECISIONS_TOTAL", 1, one_label(outcome_label(outcome)));
}

/// Number of 2PC coordinator errors by phase.
pub fn log_two_phase_error(metrics: &mut MetricsRecorder, phase: &'static str)
    ensures
        final(metrics)@ == old(metrics)@.push(counted("DATABASE_TWO_PHASE_COORDINATOR_ERRORS_TOTAL"@, 1, seq![("phase"@, phase@)])),
{
    metrics.count("DATABASE_TWO_PHASE_COORDINATOR_ERRORS_TOTAL", 1, one_label(phase_label(phase)));
}

/// Number of 2PC prepare timestamp retries.
pub fn log_two_phase_prepare_retry(metrics: &mut MetricsRecorder)
    ensures
        final(metrics)@ == old(metrics)@.push(counted("DATABASE_TWO_PHASE_PREPARE_RETRIES_TOTAL"@, 1, unlabelled())),
{
    metrics.count("DATABASE_TWO_PHASE_PREPARE_RETRIES_TOTAL", 1, no_labels());
}

/// End-to-end duration of a 2PC coordinator attempt.
pub fn two_phase_coordinator_timer() -> (r: Timer)
    ensures
        r@ == status_timing("DATABASE_TWO_PHASE_COORDINATOR_SECONDS"@, unlabelled()),
{
    Timer { metric: "DATABASE_TWO_PHASE_COORDINATOR_SECONDS", labels: no_labels(), status: TimerStatus::ErrorUnlessFinished }
}

/// Number of participants involved in a 2PC transaction.
pub fn log_two_phase_participants(metrics: &mut MetricsRecorder, num_participants: usize)
    ensures
        final(metrics)@ == old(metrics)@.push(observed("DATABASE_TWO_PHASE_PARTICIPANTS_TOTAL"@, num_participants as int, unlabelled())),
{
    metrics.observe("DATABASE_TWO_PHASE_PARTICIPANTS_TOTAL", num_participants as u64, no_labels());
}

/// Number of prepare timestamp allocation attempts for a 2PC transaction.
pub fn log_two_phase_prepare_attempts(metrics: &mut MetricsRecorder, num_attempts: usize)
    ensures
        final(metrics)@ == old(metrics)@.push(observed("DATABASE_TWO_PHASE_PREPARE_ATTEMPTS_TOTAL"@, num_attempts as int, unlabelled())),
{
    metrics.observe("DATABASE_TWO_PHASE_PREPARE_ATTEMPTS_TOTAL", num_attempts as u64, no_labels());
}

/// The two observations of one shard's load: its writes, then its read tables.
pub open spec fn shard_observations(load: (PartitionId, usize, usize)) -> Seq<Measured> {
    seq![
        observed(
            "DATABASE_CONFLICT_CHECK_SHARD_WRITES_TOTAL"@,
            load.2 as int,
            seq![("partition"@, number_text(load.0))],
        ),
        observed(
            "DATABASE_CONFLICT_CHECK_SHARD_READS_TOTAL"@,
            load.1 as int,
            seq![("partition"@, number_text(load.0))],
        ),
    ]
}

/// The observations of all shards' loads.
pub open spec fn load_observations(loads: Seq<(PartitionId, usize, usize)>) -> Seq<Measured>
    decreases loads.len(),
{
    if loads.len() == 0 {
        Seq::empty()
    } else {
        load_observations(loads.drop_last()) + shard_observations(loads.last())
    }
}

/// Number of conflict-check shards (owning partitions) a transaction spans, and
/// for each shard its partition, how many distinct tables the transaction reads
/// there, and how many writes it makes there.
pub fn log_conflict_plan(metrics: &mut MetricsRecorder, num_shards: usize, shards: &Vec<(PartitionId, usize, usize)>)
    ensures
        final(metrics)@ == old(metrics)@.push(
            observed("DATABASE_CONFLICT_CHECK_SHARDS_TOTAL"@, num_shards as int, unlabelled()),
        ) + load_observations(shards@),
{
    let ghost before = metrics@.push(
        observed("DATABASE_CONFLICT_CHECK_SHARDS_TOTAL"@, num_shards as int, unlabelled()),
    );
    metrics.observe("DATABASE_CONFLICT_CHECK_SHARDS_TOTAL", num_shards as u64, no_labels());
    let mut i: usize = 0;
    assert(metrics@ =~= before + load_observations(shards@.take(0)));
    while i < shards.len()
        invariant
            i <= shards@.len(),
            metrics@ == before + load_observations(shards@.take(i as int)),
        decreases shards@.len() - i,
    {
        let (partition, read_tables, write_count) = shards[i];
        metrics.observe(
            "DATABASE_CONFLICT_CHECK_SHARD_WRITES_TOTAL",
            write_count as u64,
            one_label(partition_label(partition)),
        );
        metrics.observe(
            "DATABASE_CONFLICT_CHECK_SHARD_READS_TOTAL",
            read_tables as u64,
            one_label(partition_label(partition)),
        );
        assert(shards@.take(i + 1).drop_last() =~= shards@.take(i as int));
        assert(metrics@ =~= before + load_observations(shards@.take(i + 1)));
        i += 1;
    }
    assert(shards@.take(i as int) =~= shards@);
}

/// Time to publish a replication delta to the distributed log.
pub fn replication_transport_publish_timer() -> (r: Timer)
    ensures
        r@ == plain_timing("DATABASE_REPLICATION_TRANSPORT_PUBLISH_SECONDS"@, unlabelled()),
{
    Timer { metric: "DATABASE_REPLICATION_TRANSPORT_PUBLISH_SECONDS", labels: no_labels(), status: TimerStatus::Plain }
}

/// Size of replication transport messages by phase.
pub fn log_replication_transport_message_bytes(metrics: &mut MetricsRecorder, phase: &'static str, bytes: usize)
    ensures
        final(metrics)@ == old(metrics)@.push(observed("DATABASE_REPLICATION_TRANSPORT_MESSAGE_BYTES"@, bytes as int, seq![("phase"@, phase@)])),
{
    metrics.observe("DATABASE_REPLICATION_TRANSPORT_MESSAGE_BYTES", bytes as u64, one_label(phase_label(phase)));
}

/// Time from replication message publish to local delivery.
pub fn log_replication_transport_lag(metrics: &mut MetricsRecorder, nanos: i128)
    ensures
        final(metrics)@ == old(metrics)@.push(timed("DATABASE_REPLICATION_TRANSPORT_LAG_SECONDS"@, nanos as int, unlabelled())),
{
    metrics.time("DATABASE_REPLICATION_TRANSPORT_LAG_SECONDS", nanos, no_labels());
}

/// Current number of JetStream replication messages pending for this consumer.
pub fn log_replication_transport_pending_messages(metrics: &mut MetricsRecorder, pending: u64)
    ensures
        final(metrics)@ == old(metrics)@.push(gauged("DATABASE_REPLICATION_TRANSPORT_PENDING_MESSAGES_INFO"@, pending as int, unlabelled())),
{
    metrics.gauge("DATABASE_REPLICATION_TRANSPORT_PENDING_MESSAGES_INFO", pending, no_labels());
}

/// Latest JetStream stream sequence observed by this consumer.
pub fn log_replication_transport_stream_sequence(metrics: &mut MetricsRecorder, sequence: u64)
    ensures
        final(metrics)@ == old(metrics)@.push(gauged("DATABASE_REPLICATION_TRANSPORT_STREAM_SEQUENCE_INFO"@, sequence as int, unlabelled())),
{
    metrics.gauge("DATABASE_REPLICATION_TRANSPORT_STREAM_SEQUENCE_INFO", sequence, no_labels());
}

/// Latest JetStream consumer sequence observed by this consumer.
pub fn log_replication_transport_consumer_sequence(metrics: &mut MetricsRecorder, sequence: u64)
    ensures
        final(metrics)@ == old(metrics)@.push(gauged("DATABASE_REPLICATION_TRANSPORT_CONSUMER_SEQUENCE_INFO"@, sequence as int, unlabelled())),
{
    metrics.gauge("DATABASE_REPLICATION_TRANSPORT_CONSUMER_SEQUENCE_INFO", sequence, no_labels());
}

/// Number of replication consumers stopped because JetStream retention removed
/// required deltas.
pub fn log_replication_transport_retention_gap(metrics: &mut MetricsRecorder)
    ensures
        final(metrics)@ == old(metrics)@.push(counted("DATABASE_REPLICATION_TRANSPORT_RETENTION_GAPS_TOTAL"@, 1, unlabelled())),
{
    metrics.count("DATABASE_REPLICATION_TRANSPORT_RETENTION_GAPS_TOTAL", 1, no_labels());
}

/// Total size of documents in user tables in bytes.
pub fn log_user_table_documents_size(metrics: &mut MetricsRecorder, total_size: u64)
    ensures
        final(metrics)@ == old(metrics)@.push(observed("DOCUMENTS_SIZE_BYTES"@, total_size as int, unlabelled())),
{
    metrics.observe("DOCUMENTS_SIZE_BYTES", total_size, no_labels());
}

/// Total number of document keys.
pub fn log_num_keys(metrics: &mut MetricsRecorder, num_keys: u64)
    ensures
        final(metrics)@ == old(metrics)@.push(observed("DOCUMENTS_KEYS_TOTAL"@, num_keys as int, unlabelled())),
{
    metrics.observe("DOCUMENTS_KEYS_TOTAL", num_keys, no_labels());
}

/// Number of indexes needing backfill.
pub fn log_num_indexes_to_backfill(metrics: &mut MetricsRecorder, num_indexes: usize)
    ensures
        final(metrics)@ == old(metrics)@.push(observed("INDEXES_TO_BACKFILL_TOTAL"@, num_indexes as int, unlabelled())),
{
    metrics.observe("INDEXES_TO_BACKFILL_TOTAL", num_indexes as u64, no_labels());
}

/// Number of indexes backfilled.
pub fn log_index_backfilled(metrics: &mut MetricsRecorder)
    ensures
        final(metrics)@ == old(metrics)@.push(counted("INDEXES_BACKFILLED_TOTAL"@, 1, unlabelled())),
{
    metrics.count("INDEXES_BACKFILLED_TOTAL", 1, no_labels());
}

/// Time for database indexes to backfill.
pub fn tablet_index_backfill_timer() -> (r: Timer)
    ensures
        r@ == plain_timing("TABLET_DB_INDEX_BACKFILL_SECONDS"@, unlabelled()),
{
    Timer { metric: "TABLET_DB_INDEX_BACKFILL_SECONDS", labels: no_labels(), status: TimerStatus::Plain }
}

/// Duration of a database subscription.
pub fn subscription_timer() -> (r: Timer)
    ensures
        r@ == plain_timing("DATABASE_SUBSCRIPTION_SECONDS"@, unlabelled()),
{
    Timer { metric: "DATABASE_SUBSCRIPTION_SECONDS", labels: no_labels(), status: TimerStatus::Plain }
}

/// time taken to refresh a database token.
pub fn refresh_token_timer() -> (r: Timer)
    ensures
        r@ == plain_timing("DATABASE_REFRESH_TOKEN_SECONDS"@, unlabelled()),
{
    Timer { metric: "DATABASE_REFRESH_TOKEN_SECONDS", labels: no_labels(), status: TimerStatus::Plain }
}

/// Time taken to bootstrap shapes.
pub fn bootstrap_table_summaries_timer() -> (r: Timer)
    ensures
        r@ == plain_timing("DATABASE_BOOTSTRAP_SHAPES_SECONDS"@, unlabelled()),
{
    Timer { metric: "DATABASE_BOOTSTRAP_SHAPES_SECONDS", labels: no_labels(), status: TimerStatus::Plain }
}

/// Time to load the database.
pub fn load_database_timer() -> (r: Timer)
    ensures
        r@ == plain_timing("DATABASE_LOAD_SECONDS"@, unlabelled()),
{
    Timer { metric: "DATABASE_LOAD_SECONDS", labels: no_labels(), status: TimerStatus::Plain }
}

/// Time to load table and index metadata.
pub fn load_table_and_index_metadata_timer() -> (r: Timer)
    ensures
        r@ == plain_timing("DB_SNAPSHOT_TABLE_AND_INDEX_METADATA_LOAD_SECONDS"@, unlabelled()),
{
    Timer { metric: "DB_SNAPSHOT_TABLE_AND_INDEX_METADATA_LOAD_SECONDS", labels: no_labels(), status: TimerStatus::Plain }
}

/// Time to load indexes into memory.
pub fn load_indexes_into_memory_timer() -> (r: Timer)
    ensures
        r@ == plain_timing("DB_SNAPSHOT_LOAD_INDEXES_INTO_MEMORY_SECONDS"@, unlabelled()),
{
    Timer { metric: "DB_SNAPSHOT_LOAD_INDEXES_INTO_MEMORY_SECONDS", labels: no_labels(), status: TimerStatus::Plain }
}

/// Time to bootstrap table registry.
pub fn bootstrap_table_registry_timer() -> (r: Timer)
    ensures
        r@ == plain_timing("DB_SNAPSHOT_BOOTSTRAP_TABLE_REGISTRY_SECONDS"@, unlabelled()),
{
    Timer { metric: "DB_SNAPSHOT_BOOTSTRAP_TABLE_REGISTRY_SECONDS", labels: no_labels(), status: TimerStatus::Plain }
}

/// Time to verify invariants when loading a DatabaseSnapshot.
pub fn verify_invariants_timer() -> (r: Timer)
    ensures
        r@ == plain_timing("DB_SNAPSHOT_VERIFY_INVARIANTS_SECONDS"@, unlabelled()),
{
    Timer { metric: "DB_SNAPSHOT_VERIFY_INVARIANTS_SECONDS", labels: no_labels(), status: TimerStatus::Plain }
}

/// Time a commit is queued.
pub fn commit_queue_timer() -> (r: Timer)
    ensures
        r@ == plain_timing("DATABASE_COMMIT_QUEUE_SECONDS"@, unlabelled()),
{
    Timer { metric: "DATABASE_COMMIT_QUEUE_SECONDS", labels: no_labels(), status: TimerStatus::Plain }
}

/// Time taken for a database commit.
pub fn commit_timer() -> (r: Timer)
    ensures
        r@ == status_timing("DATABASE_COMMIT_SECONDS"@, unlabelled()),
{
    Timer { metric: "DATABASE_COMMIT_SECONDS", labels: no_labels(), status: TimerStatus::ErrorUnlessFinished }
}

/// Foreground latency paid by individual database commit hot-path stages.
pub fn commit_hot_path_stage_timer(path: &'static str, stage: &'static str) -> (r: Timer)
    ensures
        r@ == status_timing("DATABASE_COMMIT_HOT_PATH_STAGE_SECONDS"@, seq![("path"@, path@), ("stage"@, stage@)]),
{
    Timer { metric: "DATABASE_COMMIT_HOT_PATH_STAGE_SECONDS", labels: two_labels(commit_path_label(path), commit_stage_label(stage)), status: TimerStatus::ErrorUnlessFinished }
}

/// Latency of timestamp-oracle operations on the commit hot path.
pub fn tso_operation_timer(operation: &'static str) -> (r: Timer)
    ensures
        r@ == status_timing("DATABASE_TSO_OPERATION_SECONDS"@, seq![("operation"@, operation@)]),
{
    Timer { metric: "DATABASE_TSO_OPERATION_SECONDS", labels: one_label(tso_operation_label(operation)), status: TimerStatus::ErrorUnlessFinished }
}

/// Time to check if IDs have been reused.
pub fn commit_id_reuse_timer() -> (r: Timer)
    ensures
        r@ == status_timing("DATABASE_COMMIT_ID_REUSE_SECONDS"@, unlabelled()),
{
    Timer { metric: "DATABASE_COMMIT_ID_REUSE_SECONDS", labels: no_labels(), status: TimerStatus::ErrorUnlessFinished }
}

/// Time to check if a commit is stale.
pub fn commit_is_stale_timer() -> (r: Timer)
    ensures
        r@ == status_timing("DATABASE_COMMIT_IS_STALE_SECONDS"@, unlabelled()),
{
    Timer { metric: "DATABASE_COMMIT_IS_STALE_SECONDS", labels: no_labels(), status: TimerStatus::ErrorUnlessFinished }
}

/// Number of times a database index was not found in DocumentIndexKeys when
/// determining commit staleness.
pub fn log_missing_index_key_staleness(metrics: &mut MetricsRecorder)
    ensures
        final(metrics)@ == old(metrics)@.push(counted("DATABASE_MISSING_INDEX_KEY_STALENESS_TOTAL"@, 1, unlabelled())),
{
    metrics.count("DATABASE_MISSING_INDEX_KEY_STALENESS_TOTAL", 1, no_labels());
}

/// Number of times a search index was not found in DocumentIndexKeys when
/// determining commit staleness.
pub fn log_missing_search_index_key_staleness(metrics: &mut MetricsRecorder)
    ensures
        final(metrics)@ == old(metrics)@.push(counted("DATABASE_MISSING_SEARCH_INDEX_KEY_STALENESS_TOTAL"@, 1, unlabelled())),
{
    metrics.count("DATABASE_MISSING_SEARCH_INDEX_KEY_STALENESS_TOTAL", 1, no_labels());
}

/// Number of times a database index was not found in DocumentIndexKeys when
/// updating subscriptions.
pub fn log_missing_index_key_subscriptions(metrics: &mut MetricsRecorder)
    ensures
        final(metrics)@ == old(metrics)@.push(counted("DATABASE_MISSING_INDEX_KEY_SUBSCRIPTIONS_TOTAL"@, 1, unlabelled())),
{
    metrics.count("DATABASE_MISSING_INDEX_KEY_SUBSCRIPTIONS_TOTAL", 1, no_labels());
}

/// Time to prepare writes.
pub fn commit_prepare_writes_timer() -> (r: Timer)
    ensures
        r@ == status_timing("DATABASE_COMMIT_PREPARE_WRITES_SECONDS"@, unlabelled()),
{
    Timer { metric: "DATABASE_COMMIT_PREPARE_WRITES_SECONDS", labels: no_labels(), status: TimerStatus::ErrorUnlessFinished }
}

/// Time to commit a persistence write.
pub fn commit_persistence_write_timer() -> (r: Timer)
    ensures
        r@ == status_timing("DATABASE_COMMIT_PERSISTENCE_WRITE_SECONDS"@, unlabelled()),
{
    Timer { metric: "DATABASE_COMMIT_PERSISTENCE_WRITE_SECONDS", labels: no_labels(), status: TimerStatus::ErrorUnlessFinished }
}

/// Time to apply a commit.
pub fn commit_apply_timer() -> (r: Timer)
    ensures
        r@ == status_timing("DATABASE_COMMIT_APPLY_SECONDS"@, unlabelled()),
{
    Timer { metric: "DATABASE_COMMIT_APPLY_SECONDS", labels: no_labels(), status: TimerStatus::ErrorUnlessFinished }
}

/// Time to update pending writes when validating a commit.
pub fn pending_writes_append_timer() -> (r: Timer)
    ensures
        r@ == plain_timing("DATABASE_CONFLICT_CHECKER_APPEND_SECONDS"@, unlabelled()),
{
    Timer { metric: "DATABASE_CONFLICT_CHECKER_APPEND_SECONDS", labels: no_labels(), status: TimerStatus::Plain }
}

/// Time to apply updates to the document store log.
pub fn write_log_append_timer() -> (r: Timer)
    ensures
        r@ == plain_timing("DATABASE_APPLY_DOCUMENT_STORE_APPEND_SECONDS"@, unlabelled()),
{
    Timer { metric: "DATABASE_APPLY_DOCUMENT_STORE_APPEND_SECONDS", labels: no_labels(), status: TimerStatus::Plain }
}

/// Time to convert writes from PendingWrites to WriteLog.
pub fn pending_writes_to_write_log_timer() -> (r: Timer)
    ensures
        r@ == plain_timing("DATABASE_PENDING_WRITES_TO_WRITE_LOG_SECONDS"@, unlabelled()),
{
    Timer { metric: "DATABASE_PENDING_WRITES_TO_WRITE_LOG_SECONDS", labels: no_labels(), status: TimerStatus::Plain }
}

/// Total size of all write log entries for a commit.
pub fn write_log_commit_bytes(metrics: &mut MetricsRecorder, bytes: u64)
    ensures
        final(metrics)@ == old(metrics)@.push(observed("DATABASE_WRITE_LOG_COMMIT_BYTES"@, bytes as int, unlabelled())),
{
    metrics.observe("DATABASE_WRITE_LOG_COMMIT_BYTES", bytes, no_labels());
}

/// Number of commits to database.
pub fn commit_rows(metrics: &mut MetricsRecorder, num_rows: u64)
    ensures
        final(metrics)@ == old(metrics)@.push(counted("DATABASE_COMMIT_ROWS"@, num_rows as int, unlabelled())),
{
    metrics.count("DATABASE_COMMIT_ROWS", num_rows, no_labels());
}

/// Time to advance the SubscriptionManager's log.
pub fn subscriptions_update_timer() -> (r: Timer)
    ensures
        r@ == plain_timing("DATABASE_SUBSCRIPTIONS_UPDATE_SECONDS"@, unlabelled()),
{
    Timer { metric: "DATABASE_SUBSCRIPTIONS_UPDATE_SECONDS", labels: no_labels(), status: TimerStatus::Plain }
}

/// Time to bump max_repeatable_ts.
pub fn bump_repeatable_ts_timer() -> (r: Timer)
    ensures
        r@ == plain_timing("BUMP_REPEATABLE_TS_SECONDS"@, unlabelled()),
{
    Timer { metric: "BUMP_REPEATABLE_TS_SECONDS", labels: no_labels(), status: TimerStatus::Plain }
}

/// Time to allocate the next commit timestamp.
pub fn next_commit_ts_seconds() -> (r: Timer)
    ensures
        r@ == plain_timing("NEXT_COMMIT_TS_SECONDS"@, unlabelled()),
{
    Timer { metric: "NEXT_COMMIT_TS_SECONDS", labels: no_labels(), status: TimerStatus::Plain }
}

/// Time to get latest min_snapshot_ts.
pub fn latest_min_snapshot_timer() -> (r: Timer)
    ensures
        r@ == plain_timing("LATEST_MIN_SNAPSHOT_SECONDS"@, unlabelled()),
{
    Timer { metric: "LATEST_MIN_SNAPSHOT_SECONDS", labels: no_labels(), status: TimerStatus::Plain }
}

/// Time to get latest min_document_snapshot_ts.
pub fn latest_min_document_snapshot_timer() -> (r: Timer)
    ensures
        r@ == plain_timing("LATEST_MIN_DOCUMENT_SNAPSHOT_SECONDS"@, unlabelled()),
{
    Timer { metric: "LATEST_MIN_DOCUMENT_SNAPSHOT_SECONDS", labels: no_labels(), status: TimerStatus::Plain }
}

/// Time to advance retention min snapshot.
pub fn retention_advance_timestamp_timer() -> (r: Timer)
    ensures
        r@ == plain_timing("RETENTION_ADVANCE_TIMER_SECONDS"@, unlabelled()),
{
    Timer { metric: "RETENTION_ADVANCE_TIMER_SECONDS", labels: no_labels(), status: TimerStatus::Plain }
}

/// Time for index retention to complete deletions.
pub fn index_retention_delete_timer() -> (r: Timer)
    ensures
        r@ == plain_timing("INDEX_RETENTION_DELETE_SECONDS"@, unlabelled()),
{
    Timer { metric: "INDEX_RETENTION_DELETE_SECONDS", labels: no_labels(), status: TimerStatus::Plain }
}

/// Time for retention to complete deletions.
pub fn retention_delete_documents_timer() -> (r: Timer)
    ensures
        r@ == plain_timing("RETENTION_DELETE_DOCUMENTS_SECONDS"@, unlabelled()),
{
    Timer { metric: "RETENTION_DELETE_DOCUMENTS_SECONDS", labels: no_labels(), status: TimerStatus::Plain }
}

/// Time for index retention to delete one chunk.
pub fn index_retention_delete_chunk_timer() -> (r: Timer)
    ensures
        r@ == plain_timing("INDEX_RETENTION_DELETE_CHUNK_SECONDS"@, unlabelled()),
{
    Timer { metric: "INDEX_RETENTION_DELETE_CHUNK_SECONDS", labels: no_labels(), status: TimerStatus::Plain }
}

/// Time for document retention to delete one chunk.
pub fn retention_delete_document_chunk_timer() -> (r: Timer)
    ensures
        r@ == plain_timing("RETENTION_DELETE_DOCUMENT_CHUNK_SECONDS"@, unlabelled()),
{
    Timer { metric: "RETENTION_DELETE_DOCUMENT_CHUNK_SECONDS", labels: no_labels(), status: TimerStatus::Plain }
}

/// Age of the index retention cursor.
pub fn log_index_retention_cursor_age(metrics: &mut MetricsRecorder, nanos: u64)
    ensures
        final(metrics)@ == old(metrics)@.push(timed("INDEX_RETENTION_CURSOR_AGE_SECONDS"@, nanos as int, unlabelled())),
{
    metrics.time("INDEX_RETENTION_CURSOR_AGE_SECONDS", nanos as i128, no_labels());
}

/// Lag between the index retention cursor and the min index snapshot.
pub fn log_index_retention_cursor_lag(metrics: &mut MetricsRecorder, nanos: u64)
    ensures
        final(metrics)@ == old(metrics)@.push(timed("INDEX_RETENTION_CURSOR_LAG_SECONDS"@, nanos as int, unlabelled())),
{
    metrics.time("INDEX_RETENTION_CURSOR_LAG_SECONDS", nanos as i128, no_labels());
}

/// Age of the document retention cursor.
pub fn log_document_retention_cursor_age(metrics: &mut MetricsRecorder, nanos: u64)
    ensures
        final(metrics)@ == old(metrics)@.push(timed("DOCUMENT_RETENTION_CURSOR_AGE_SECONDS"@, nanos as int, unlabelled())),
{
    metrics.time("DOCUMENT_RETENTION_CURSOR_AGE_SECONDS", nanos as i128, no_labels());
}

/// Lag between the retention cursor and the min document snapshot.
pub fn log_document_retention_cursor_lag(metrics: &mut MetricsRecorder, nanos: u64)
    ensures
        final(metrics)@ == old(metrics)@.push(timed("DOCUMENT_RETENTION_CURSOR_LAG_SECONDS"@, nanos as int, unlabelled())),
{
    metrics.time("DOCUMENT_RETENTION_CURSOR_LAG_SECONDS", nanos as i128, no_labels());
}

/// Index retention has no cursor.
pub fn log_index_retention_no_cursor(metrics: &mut MetricsRecorder)
    ensures
        final(metrics)@ == old(metrics)@.push(counted("INDEX_RETENTION_MISSING_CURSOR_INFO"@, 1, unlabelled())),
{
    metrics.count("INDEX_RETENTION_MISSING_CURSOR_INFO", 1, no_labels());
}

/// Document retention has no cursor.
pub fn log_document_retention_no_cursor(metrics: &mut MetricsRecorder)
    ensures
        final(metrics)@ == old(metrics)@.push(counted("DOCUMENT_RETENTION_MISSING_CURSOR_INFO"@, 1, unlabelled())),
{
    metrics.count("DOCUMENT_RETENTION_MISSING_CURSOR_INFO", 1, no_labels());
}

/// The total number of index entries persistence returns as having been
/// actually deleted by retention.
pub fn log_retention_index_entries_deleted(metrics: &mut MetricsRecorder, deleted_rows: usize)
    ensures
        final(metrics)@ == old(metrics)@.push(counted("RETENTION_INDEX_ENTRIES_DELETED_TOTAL"@, deleted_rows as int, unlabelled())),
{
    metrics.count("RETENTION_INDEX_ENTRIES_DELETED_TOTAL", deleted_rows as u64, no_labels());
}

/// The total number of documents persistence returns as having been actually
/// deleted by retention.
pub fn log_retention_documents_deleted(metrics: &mut MetricsRecorder, deleted_rows: usize)
    ensures
        final(metrics)@ == old(metrics)@.push(counted("RETENTION_DOCUMENTS_DELETED_TOTAL"@, deleted_rows as int, unlabelled())),
{
    metrics.count("RETENTION_DOCUMENTS_DELETED_TOTAL", deleted_rows as u64, no_labels());
}

/// The total number of documents deleted from tablets deleted outside the
/// document retention window.
pub fn log_deleted_tablet_documents_deleted(metrics: &mut MetricsRecorder, rows_deleted: usize)
    ensures
        final(metrics)@ == old(metrics)@.push(counted("RETENTION_DOCUMENTS_DELETED_FROM_DELETED_TABLETS_TOTAL"@, rows_deleted as int, unlabelled())),
{
    metrics.count("RETENTION_DOCUMENTS_DELETED_FROM_DELETED_TABLETS_TOTAL", rows_deleted as u64, no_labels());
}

/// Records the udf query used results total, udf query unused results total,
/// udf query pages fetched total.
pub fn log_index_range(metrics: &mut MetricsRecorder, returned_results: usize, unused_results: usize, pages_fetched: usize)
    ensures
        final(metrics)@ == old(metrics)@
            .push(observed("UDF_QUERY_USED_RESULTS_TOTAL"@, returned_results as int, unlabelled()))
            .push(observed("UDF_QUERY_UNUSED_RESULTS_TOTAL"@, unused_results as int, unlabelled()))
            .push(observed("UDF_QUERY_PAGES_FETCHED_TOTAL"@, pages_fetched as int, unlabelled())),
{
    metrics.observe("UDF_QUERY_USED_RESULTS_TOTAL", returned_results as u64, no_labels());
    metrics.observe("UDF_QUERY_UNUSED_RESULTS_TOTAL", unused_results as u64, no_labels());
    metrics.observe("UDF_QUERY_PAGES_FETCHED_TOTAL", pages_fetched as u64, no_labels());
}

/// Number of times refreshing reads fails because the write log is stale.
pub fn log_reads_refresh_miss(metrics: &mut MetricsRecorder)
    ensures
        final(metrics)@ == old(metrics)@.push(counted("DATABASE_READS_REFRESH_MISS_TOTAL"@, 1, unlabelled())),
{
    metrics.count("DATABASE_READS_REFRESH_MISS_TOTAL", 1, no_labels());
}

/// How old a given read set is compared to the timestamp of a request that
/// wants to use it.
pub fn log_read_set_age(metrics: &mut MetricsRecorder, nanos: u64)
    ensures
        final(metrics)@ == old(metrics)@.push(timed("DATABASE_READS_REFRESH_AGE_SECONDS"@, nanos as int, unlabelled())),
{
    metrics.time("DATABASE_READS_REFRESH_AGE_SECONDS", nanos as i128, no_labels());
}

/// Number of times virtual table get path is called.
pub fn log_virtual_table_get(metrics: &mut MetricsRecorder)
    ensures
        final(metrics)@ == old(metrics)@.push(counted("VIRTUAL_TABLE_GET_REQUESTS_TOTAL"@, 1, unlabelled())),
{
    metrics.count("VIRTUAL_TABLE_GET_REQUESTS_TOTAL", 1, no_labels());
}

/// Number of times virtual table query path is called.
pub fn log_virtual_table_query(metrics: &mut MetricsRecorder)
    ensures
        final(metrics)@ == old(metrics)@.push(counted("VIRTUAL_TABLE_QUERY_REQUESTS_TOTAL"@, 1, unlabelled())),
{
    metrics.count("VIRTUAL_TABLE_QUERY_REQUESTS_TOTAL", 1, no_labels());
}

/// Time taken to bootstrap text and vector indexes.
pub fn bootstrap_timer() -> (r: Timer)
    ensures
        r@ == status_timing("SEARCH_AND_VECTOR_BOOTSTRAP_SECONDS"@, unlabelled()),
{
    Timer { metric: "SEARCH_AND_VECTOR_BOOTSTRAP_SECONDS", labels: no_labels(), status: TimerStatus::ErrorUnlessFinished }
}

/// Time to update text and vector index bootstrap in the committer.
pub fn bootstrap_update_timer() -> (r: Timer)
    ensures
        r@ == plain_timing("SEARCH_AND_VECTOR_BOOTSTRAP_COMMITTER_UPDATE_SECONDS"@, unlabelled()),
{
    Timer { metric: "SEARCH_AND_VECTOR_BOOTSTRAP_COMMITTER_UPDATE_SECONDS", labels: no_labels(), status: TimerStatus::Plain }
}

/// Records the search and vector bootstrap committer update revisions total,
/// search and vector bootstrap committer update revisions bytes.
pub fn finish_bootstrap_update(metrics: &mut MetricsRecorder, num_revisions: usize, bytes: usize)
    ensures
        final(metrics)@ == old(metrics)@
            .push(counted("SEARCH_AND_VECTOR_BOOTSTRAP_COMMITTER_UPDATE_REVISIONS_TOTAL"@, num_revisions as int, unlabelled()))
            .push(counted("SEARCH_AND_VECTOR_BOOTSTRAP_COMMITTER_UPDATE_REVISIONS_BYTES"@, bytes as int, unlabelled())),
{
    metrics.count("SEARCH_AND_VECTOR_BOOTSTRAP_COMMITTER_UPDATE_REVISIONS_TOTAL", num_revisions as u64, no_labels());
    metrics.count("SEARCH_AND_VECTOR_BOOTSTRAP_COMMITTER_UPDATE_REVISIONS_BYTES", bytes as u64, no_labels());
}

/// The amount of time spent waiting for the writer lock to commit a vector/text
/// index metadata change.
pub fn search_writer_lock_wait_timer(waiter: SearchWriterLockWaiter, search_type: SearchType) -> (r: Timer)
    ensures
        r@ == plain_timing("SEARCH_WRITER_LOCK_WAIT_SECONDS"@, seq![search_type.label_text(), waiter.label_text()]),
{
    Timer { metric: "SEARCH_WRITER_LOCK_WAIT_SECONDS", labels: two_labels(search_type.tag(), waiter.tag()), status: TimerStatus::Plain }
}

/// Time to merge deletes and commit after compaction.
pub fn search_compaction_merge_commit_timer(search_type: SearchType) -> (r: Timer)
    ensures
        r@ == status_timing("SEARCH_COMPACTION_MERGE_COMMIT_SECONDS"@, seq![search_type.label_text(), SearchIndexMergeType::Unknown.label_text()]),
{
    Timer { metric: "SEARCH_COMPACTION_MERGE_COMMIT_SECONDS", labels: two_labels(search_type.tag(), SearchIndexMergeType::Unknown.metric_label()), status: TimerStatus::ErrorUnlessFinished }
}

/// Time to merge deletes and commit after flushing.
pub fn search_flush_merge_commit_timer(search_type: SearchType) -> (r: Timer)
    ensures
        r@ == status_timing("SEARCH_FLUSH_MERGE_COMMIT_SECONDS"@, seq![search_type.label_text(), SearchIndexMergeType::Unknown.label_text()]),
{
    Timer { metric: "SEARCH_FLUSH_MERGE_COMMIT_SECONDS", labels: two_labels(search_type.tag(), SearchIndexMergeType::Unknown.metric_label()), status: TimerStatus::ErrorUnlessFinished }
}

/// Total number of documents in a newly built search index segment.
pub fn log_documents_per_new_search_segment(metrics: &mut MetricsRecorder, count: u64, search_type: SearchType)
    ensures
        final(metrics)@ == old(metrics)@.push(observed("DOCUMENTS_PER_NEW_SEARCH_SEGMENT_TOTAL"@, count as int, seq![search_type.label_text()])),
{
    metrics.observe("DOCUMENTS_PER_NEW_SEARCH_SEGMENT_TOTAL", count, one_label(search_type.tag()));
}

/// Total number of documents in a specific search segment, including documents
/// that were added to the segment but are deleted and excluded from any search
/// results.
pub fn log_documents_per_search_segment(metrics: &mut MetricsRecorder, count: u64, search_type: SearchType)
    ensures
        final(metrics)@ == old(metrics)@.push(observed("DOCUMENTS_PER_SEARCH_SEGMENT_TOTAL"@, count as int, seq![search_type.label_text()])),
{
    metrics.observe("DOCUMENTS_PER_SEARCH_SEGMENT_TOTAL", count, one_label(search_type.tag()));
}

/// Total number of non-deleted documents in a specific search segment,
/// excluding documents that were added to the segment but are deleted and
/// excluded from any search results.
pub fn log_non_deleted_documents_per_search_segment(metrics: &mut MetricsRecorder, count: u64, search_type: SearchType)
    ensures
        final(metrics)@ == old(metrics)@.push(observed("NON_DELETED_DOCUMENTS_PER_SEARCH_SEGMENT_TOTAL"@, count as int, seq![search_type.label_text()])),
{
    metrics.observe("NON_DELETED_DOCUMENTS_PER_SEARCH_SEGMENT_TOTAL", count, one_label(search_type.tag()));
}

/// Total number of documents across all segments in a search index, including
/// documents that were added to the index but are deleted and excluded from any
/// search results.
pub fn log_documents_per_search_index(metrics: &mut MetricsRecorder, count: u64, search_type: SearchType)
    ensures
        final(metrics)@ == old(metrics)@.push(observed("DOCUMENTS_PER_SEARCH_INDEX_TOTAL"@, count as int, seq![search_type.label_text()])),
{
    metrics.observe("DOCUMENTS_PER_SEARCH_INDEX_TOTAL", count, one_label(search_type.tag()));
}

/// Total number of non-deleted documents across all segments in a search index
/// segment, excluding documents that were added to the index but are deleted
/// and excluded from any search results.
pub fn log_non_deleted_documents_per_search_index(metrics: &mut MetricsRecorder, count: u64, search_type: SearchType)
    ensures
        final(metrics)@ == old(metrics)@.push(observed("NON_DELETED_DOCUMENTS_PER_SEARCH_INDEX_TOTAL"@, count as int, seq![search_type.label_text()])),
{
    metrics.observe("NON_DELETED_DOCUMENTS_PER_SEARCH_INDEX_TOTAL", count, one_label(search_type.tag()));
}

/// Time to run a single vector/text index compaction.
pub fn compaction_build_one_timer(search_type: SearchType, reason: CompactionReason) -> (r: Timer)
    ensures
        r@ == status_timing("COMPACTION_BUILD_ONE_SECONDS"@, seq![search_type.label_text(), reason.label_text()]),
{
    Timer { metric: "COMPACTION_BUILD_ONE_SECONDS", labels: two_labels(search_type.tag(), reason.metric_label()), status: TimerStatus::ErrorUnlessFinished }
}

/// Total number of compacted segments.
pub fn log_compaction_total_segments(metrics: &mut MetricsRecorder, total_segments: usize, search_type: SearchType)
    ensures
        final(metrics)@ == old(metrics)@.push(observed("COMPACTION_COMPACTED_SEGMENTS_TOTAL"@, total_segments as int, seq![search_type.label_text()])),
{
    metrics.observe("COMPACTION_COMPACTED_SEGMENTS_TOTAL", total_segments as u64, one_label(search_type.tag()));
}

/// The number of documents in the newly generated compacted segment.
pub fn log_compaction_compacted_segment_num_documents_total(metrics: &mut MetricsRecorder, total_vectors: u64, search_type: SearchType)
    ensures
        final(metrics)@ == old(metrics)@.push(observed("COMPACTION_COMPACTED_SEGMENT_NUM_DOCUMENTS_TOTAL"@, total_vectors as int, seq![search_type.label_text()])),
{
    metrics.observe("COMPACTION_COMPACTED_SEGMENT_NUM_DOCUMENTS_TOTAL", total_vectors, one_label(search_type.tag()));
}

/// Time to build one (multisegment) search index.
pub fn build_one_search_index_timer(search_type: SearchType) -> (r: Timer)
    ensures
        r@ == status_timing("DATABASE_SEARCH_INDEX_BUILD_ONE_SECONDS"@, seq![search_type.label_text()]),
{
    Timer { metric: "DATABASE_SEARCH_INDEX_BUILD_ONE_SECONDS", labels: one_label(search_type.tag()), status: TimerStatus::ErrorUnlessFinished }
}

/// Time to bootstrap vector and text indexes.
pub fn search_and_vector_bootstrap_timer() -> (r: Timer)
    ensures
        r@ == status_timing("DATABASE_VECTOR_AND_SEARCH_BOOTSTRAP_SECONDS"@, unlabelled()),
{
    Timer { metric: "DATABASE_VECTOR_AND_SEARCH_BOOTSTRAP_SECONDS", labels: no_labels(), status: TimerStatus::ErrorUnlessFinished }
}

/// Time to finish table summary bootstrap.
pub fn table_summary_finish_bootstrap_timer() -> (r: Timer)
    ensures
        r@ == status_timing("DATABASE_TABLE_SUMMARY_FINISH_BOOTSTRAP_SECONDS"@, unlabelled()),
{
    Timer { metric: "DATABASE_TABLE_SUMMARY_FINISH_BOOTSTRAP_SECONDS", labels: no_labels(), status: TimerStatus::ErrorUnlessFinished }
}

/// Number of documents skipped during vector and text index bootstrap.
pub fn log_document_skipped(metrics: &mut MetricsRecorder)
    ensures
        final(metrics)@ == old(metrics)@.push(counted("SEARCH_AND_VECTOR_BOOTSTRAP_DOCUMENTS_SKIPPED_TOTAL"@, 1, unlabelled())),
{
    metrics.count("SEARCH_AND_VECTOR_BOOTSTRAP_DOCUMENTS_SKIPPED_TOTAL", 1, no_labels());
}

/// Nonempty component definition loaded from database.
pub fn log_nonempty_component_exports(metrics: &mut MetricsRecorder)
    ensures
        final(metrics)@ == old(metrics)@.push(counted("DATABASE_NONEMPTY_COMPONENT_EXPORTS_TOTAL"@, 1, unlabelled())),
{
    metrics.count("DATABASE_NONEMPTY_COMPONENT_EXPORTS_TOTAL", 1, no_labels());
}

/// Total number of rows read in a document_deltas call.
pub fn log_document_deltas_read_documents(metrics: &mut MetricsRecorder, num: usize)
    ensures
        final(metrics)@ == old(metrics)@.push(observed("DOCUMENT_DELTAS_READ_DOCUMENTS"@, num as int, unlabelled())),
{
    metrics.observe("DOCUMENT_DELTAS_READ_DOCUMENTS", num as u64, no_labels());
}

/// Total number of documents returned by a document_deltas call.
pub fn log_document_deltas_returned_documents(metrics: &mut MetricsRecorder, num: usize)
    ensures
        final(metrics)@ == old(metrics)@.push(observed("DOCUMENT_DELTAS_RETURNED_DOCUMENTS"@, num as int, unlabelled())),
{
    metrics.observe("DOCUMENT_DELTAS_RETURNED_DOCUMENTS", num as u64, no_labels());
}

/// Total number of documents in a returned SnapshotPage.
pub fn log_list_snapshot_page_documents(metrics: &mut MetricsRecorder, num_docs: usize)
    ensures
        final(metrics)@ == old(metrics)@.push(observed("LIST_SNAPSHOT_PAGE_DOCUMENTS"@, num_docs as int, unlabelled())),
{
    metrics.observe("LIST_SNAPSHOT_PAGE_DOCUMENTS", num_docs as u64, no_labels());
}

/// Number of subscriptions invalidated when advancing the log.
pub fn log_subscriptions_invalidated(metrics: &mut MetricsRecorder, num: usize)
    ensures
        final(metrics)@ == old(metrics)@.push(observed("SUBSCRIPTION_INVALIDATION_UPDATES"@, num as int, unlabelled())),
{
    metrics.observe("SUBSCRIPTION_INVALIDATION_UPDATES", num as u64, no_labels());
}

/// Time to iterate over the write log when advancing subscriptions.
pub fn subscriptions_log_iterate_timer() -> (r: Timer)
    ensures
        r@ == plain_timing("SUBSCRIPTION_LOG_ITERATE_SECONDS"@, unlabelled()),
{
    Timer { metric: "SUBSCRIPTION_LOG_ITERATE_SECONDS", labels: no_labels(), status: TimerStatus::Plain }
}

/// Time to process one write log entry when advancing subscriptions.
pub fn subscription_process_write_log_entry_timer() -> (r: Timer)
    ensures
        r@ == plain_timing("SUBSCRIPTION_PROCESS_WRITE_LOG_ENTRY_SECONDS"@, unlabelled()),
{
    Timer { metric: "SUBSCRIPTION_PROCESS_WRITE_LOG_ENTRY_SECONDS", labels: no_labels(), status: TimerStatus::Plain }
}

/// Time to invalidate subscriptions when advancing the log.
pub fn subscriptions_invalidate_timer() -> (r: Timer)
    ensures
        r@ == plain_timing("SUBSCRIPTION_LOG_INVALIDATE_SECONDS"@, unlabelled()),
{
    Timer { metric: "SUBSCRIPTION_LOG_INVALIDATE_SECONDS", labels: no_labels(), status: TimerStatus::Plain }
}

/// Time to enforce retention policy when advancing subscriptions.
pub fn subscriptions_log_enforce_retention_timer() -> (r: Timer)
    ensures
        r@ == plain_timing("SUBSCRIPTION_LOG_ENFORCE_RETENTION_SECONDS"@, unlabelled()),
{
    Timer { metric: "SUBSCRIPTION_LOG_ENFORCE_RETENTION_SECONDS", labels: no_labels(), status: TimerStatus::Plain }
}

/// Total number of commits in the write log processed during one advance_log.
pub fn log_subscriptions_log_processed_commits(metrics: &mut MetricsRecorder, log_len: usize)
    ensures
        final(metrics)@ == old(metrics)@.push(observed("SUBSCRIPTION_LOG_PROCESSED_COMMITS"@, log_len as int, unlabelled())),
{
    metrics.observe("SUBSCRIPTION_LOG_PROCESSED_COMMITS", log_len as u64, no_labels());
}

/// Total number of writes in the write log processed during one advance_log.
pub fn log_subscriptions_log_processed_writes(metrics: &mut MetricsRecorder, num_writes: usize)
    ensures
        final(metrics)@ == old(metrics)@.push(observed("SUBSCRIPTION_LOG_PROCESSED_WRITES"@, num_writes as int, unlabelled())),
{
    metrics.observe("SUBSCRIPTION_LOG_PROCESSED_WRITES", num_writes as u64, no_labels());
}

/// Number of transactions that failed because search indexes hadn't flushed.
pub fn log_index_too_large_blocking_writes(metrics: &mut MetricsRecorder, index_type: SearchType)
    ensures
        final(metrics)@ == old(metrics)@.push(counted("INDEX_TOO_LARGE_BLOCKING_WRITES"@, 1, seq![index_type.label_text()])),
{
    metrics.count("INDEX_TOO_LARGE_BLOCKING_WRITES", 1, one_label(index_type.tag()));
}

/// How long subscription requests wait in the subscription worker queue.
pub fn log_subscription_queue_lag(metrics: &mut MetricsRecorder, nanos: u64)
    ensures
        final(metrics)@ == old(metrics)@.push(timed("SUBSCRIPTION_QUEUE_LAG_SECONDS"@, nanos as int, unlabelled())),
{
    metrics.time("SUBSCRIPTION_QUEUE_LAG_SECONDS", nanos as i128, no_labels());
}

/// Total number of times mutation execution was rejected due to write
/// throughput limit.
pub fn log_write_throughput_limit_exceeded(metrics: &mut MetricsRecorder)
    ensures
        final(metrics)@ == old(metrics)@.push(counted("WRITE_THROUGHPUT_LIMIT_EXCEEDED_TOTAL"@, 1, unlabelled())),
{
    metrics.count("WRITE_THROUGHPUT_LIMIT_EXCEEDED_TOTAL", 1, no_labels());
}

/// Total number of times mutation execution would be rejected due to write
/// throughput limit.
pub fn log_write_throughput_limit_would_be_exceeded(metrics: &mut MetricsRecorder)
    ensures
        final(metrics)@ == old(metrics)@.push(counted("WRITE_THROUGHPUT_LIMIT_WOULD_BE_EXCEEDED_TOTAL"@, 1, unlabelled())),
{
    metrics.count("WRITE_THROUGHPUT_LIMIT_WOULD_BE_EXCEEDED_TOTAL", 1, no_labels());
}

/// Total bytes written in the current window.
pub fn log_write_throughput(metrics: &mut MetricsRecorder, bytes: u64)
    ensures
        final(metrics)@ == old(metrics)@.push(observed("WRITE_THROUGHPUT_BYTES"@, bytes as int, unlabelled())),
{
    metrics.observe("WRITE_THROUGHPUT_BYTES", bytes, no_labels());
}

/// Extra latency of a commit, seen by the client that asked for it.
pub fn commit_client_timer(identity: &'static str) -> (r: Timer)
    ensures
        r@ == plain_timing("DATABASE_COMMIT_CLIENT_SECONDS"@, seq![("identity"@, identity@)]),
{
    Timer {
        metric: "DATABASE_COMMIT_CLIENT_SECONDS",
        labels: one_label(label("identity", identity)),
        status: TimerStatus::Plain,
    }
}

/// How many voters a majority of `voters` takes; none where there are none.
pub open spec fn quorum(voters: nat) -> nat {
    if voters == 0 {
        0
    } else {
        voters / 2 + 1
    }
}

/// Whether a group has voters that have not been heard from.
pub open spec fn under_replicated(configured: nat, active: nat) -> bool {
    configured > 0 && active < configured
}

/// Whether a group has voters but too few of them to decide anything.
pub open spec fn quorum_unavailable(configured: nat, active: nat) -> bool {
    quorum(configured) > 0 && active < quorum(configured)
}

/// A truth value as a gauge shows it.
pub open spec fn flag_level(b: bool) -> int {
    if b {
        1
    } else {
        0
    }
}

/// The samples that describe the health of a Raft group.
pub open spec fn replication_health(
    partition: PartitionId,
    configured: nat,
    active: nat,
    lagging: nat,
    max_lag: nat,
    total_lag: nat,
) -> Seq<Measured> {
    let labels = seq![("partition"@, number_text(partition))];
    seq![
        gauged("DATABASE_RAFT_CONFIGURED_VOTERS_INFO"@, configured as int, labels),
        gauged("DATABASE_RAFT_RECENT_ACTIVE_VOTERS_INFO"@, active as int, labels),
        gauged("DATABASE_RAFT_LAGGING_FOLLOWERS_INFO"@, lagging as int, labels),
        gauged("DATABASE_RAFT_MAX_FOLLOWER_LAG_ENTRIES_INFO"@, max_lag as int, labels),
        gauged("DATABASE_RAFT_TOTAL_FOLLOWER_LAG_ENTRIES_INFO"@, total_lag as int, labels),
        gauged(
            "DATABASE_RAFT_UNDER_REPLICATED_INFO"@,
            flag_level(under_replicated(configured, active)),
            labels,
        ),
        gauged(
            "DATABASE_RAFT_QUORUM_UNAVAILABLE_INFO"@,
            flag_level(quorum_unavailable(configured, active)),
            labels,
        ),
    ]
}

/// Records how a Raft group is doing: its voters, how far its followers lag,
/// whether it is under-replicated and whether it has lost its quorum.
pub fn log_raft_replication_health(
    metrics: &mut MetricsRecorder,
    partition: PartitionId,
    configured_voters: usize,
    recent_active_voters: usize,
    lagging_followers: usize,
    max_follower_lag_entries: u64,
    total_follower_lag_entries: u64,
)
    ensures
        final(metrics)@ == old(metrics)@ + replication_health(
            partition,
            configured_voters as nat,
            recent_active_voters as nat,
            lagging_followers as nat,
            max_follower_lag_entries as nat,
            total_follower_lag_entries as nat,
        ),
{
    let quorum_size: usize = if configured_voters == 0 {
        0
    } else {
        configured_voters / 2 + 1
    };
    let short_of_voters = configured_voters > 0 && recent_active_voters < configured_voters;
    let short_of_quorum = quorum_size > 0 && recent_active_voters < quorum_size;
    let ghost before = metrics@;
    metrics.gauge(
        "DATABASE_RAFT_CONFIGURED_VOTERS_INFO",
        configured_voters as u64,
        one_label(partition_label(partition)),
    );
    metrics.gauge(
        "DATABASE_RAFT_RECENT_ACTIVE_VOTERS_INFO",
        recent_active_voters as u64,
        one_label(partition_label(partition)),
    );
    metrics.gauge(
        "DATABASE_RAFT_LAGGING_FOLLOWERS_INFO",
        lagging_followers as u64,
        one_label(partition_label(partition)),
    );
    metrics.gauge(
        "DATABASE_RAFT_MAX_FOLLOWER_LAG_ENTRIES_INFO",
        max_follower_lag_entries,
        one_label(partition_label(partition)),
    );
    metrics.gauge(
        "DATABASE_RAFT_TOTAL_FOLLOWER_LAG_ENTRIES_INFO",
        total_follower_lag_entries,
        one_label(partition_label(partition)),
    );
    metrics.gauge(
        "DATABASE_RAFT_UNDER_REPLICATED_INFO",
        if short_of_voters {
            1
        } else {
            0
        },
        one_label(partition_label(partition)),
    );
    metrics.gauge(
        "DATABASE_RAFT_QUORUM_UNAVAILABLE_INFO",
        if short_of_quorum {
            1
        } else {
            0
        },
        one_label(partition_label(partition)),
    );
    assert(metrics@ =~= before + replication_health(
        partition,
        configured_voters as nat,
        recent_active_voters as nat,
        lagging_followers as nat,
        max_follower_lag_entries as nat,
        total_follower_lag_entries as nat,
    ));
}

/// Records a Raft group without voters.
pub fn reset_raft_replication_health(metrics: &mut MetricsRecorder, partition: PartitionId)
    ensures
        final(metrics)@ == old(metrics)@ + replication_health(partition, 0, 0, 0, 0, 0),
{
    log_raft_replication_health(metrics, partition, 0, 0, 0, 0, 0);
}

/// A group that has lost its quorum is under-replicated.
pub proof fn lost_quorum_is_under_replication(configured: nat, active: nat)
    ensures
        quorum_unavailable(configured, active) ==> under_replicated(configured, active),
{
}

/// How much a transaction writes, in bytes and in documents.
#[derive(Clone, Copy, Debug, PartialEq, Eq, Structural)]
pub struct WriteSize {
    pub size: u32,
    pub num_writes: u32,
}

/// Records the size of a transaction that writes: how many index intervals it
/// read, and how much it wrote in all, to user tables and to system tables.
pub fn log_write_tx(metrics: &mut MetricsRecorder, num_intervals: usize, user: WriteSize, system: WriteSize)
    ensures
        final(metrics)@ == old(metrics)@ + seq![
            observed("DATABASE_WRITE_TX_READ_INTERVALS_TOTAL"@, num_intervals as int, unlabelled()),
            observed("DATABASE_WRITE_TX_WRITES_TOTAL"@, user.size + system.size, unlabelled()),
            observed("DATABASE_WRITE_TX_NUM_WRITES_TOTAL"@, user.num_writes + system.num_writes, unlabelled()),
            observed("DATABASE_USER_WRITE_TX_WRITES_TOTAL"@, user.size as int, unlabelled()),
            observed("DATABASE_USER_WRITE_TX_NUM_WRITES_TOTAL"@, user.num_writes as int, unlabelled()),
            observed("DATABASE_SYSTEM_WRITE_TX_WRITES_TOTAL"@, system.size as int, unlabelled()),
            observed("DATABASE_SYSTEM_WRITE_TX_NUM_WRITES_TOTAL"@, system.num_writes as int, unlabelled()),
        ],
{
    let ghost before = metrics@;
    metrics.observe("DATABASE_WRITE_TX_READ_INTERVALS_TOTAL", num_intervals as u64, no_labels());
    metrics.observe("DATABASE_WRITE_TX_WRITES_TOTAL", user.size as u64 + system.size as u64, no_labels());
    metrics.observe(
        "DATABASE_WRITE_TX_NUM_WRITES_TOTAL",
        user.num_writes as u64 + system.num_writes as u64,
        no_labels(),
    );
    metrics.observe("DATABASE_USER_WRITE_TX_WRITES_TOTAL", user.size as u64, no_labels());
    metrics.observe("DATABASE_USER_WRITE_TX_NUM_WRITES_TOTAL", user.num_writes as u64, no_labels());
    metrics.observe("DATABASE_SYSTEM_WRITE_TX_WRITES_TOTAL", system.size as u64, no_labels());
    metrics.observe("DATABASE_SYSTEM_WRITE_TX_NUM_WRITES_TOTAL", system.num_writes as u64, no_labels());
    assert(metrics@ =~= before + seq![
        observed("DATABASE_WRITE_TX_READ_INTERVALS_TOTAL"@, num_intervals as int, unlabelled()),
        observed("DATABASE_WRITE_TX_WRITES_TOTAL"@, user.size + system.size, unlabelled()),
        observed("DATABASE_WRITE_TX_NUM_WRITES_TOTAL"@, user.num_writes + system.num_writes, unlabelled()),
        observed("DATABASE_USER_WRITE_TX_WRITES_TOTAL"@, user.size as int, unlabelled()),
        observed("DATABASE_USER_WRITE_TX_NUM_WRITES_TOTAL"@, user.num_writes as int, unlabelled()),
        observed("DATABASE_SYSTEM_WRITE_TX_WRITES_TOTAL"@, system.size as int, unlabelled()),
        observed("DATABASE_SYSTEM_WRITE_TX_NUM_WRITES_TOTAL"@, system.num_writes as int, unlabelled()),
    ]);
}

/// Records how many index intervals a read-only transaction read.
pub fn log_read_tx(metrics: &mut MetricsRecorder, num_intervals: usize)
    ensures
        final(metrics)@ == old(metrics)@.push(
            observed("DATABASE_READ_TX_READ_INTERVALS_TOTAL"@, num_intervals as int, unlabelled()),
        ),
{
    metrics.observe("DATABASE_READ_TX_READ_INTERVALS_TOTAL", num_intervals as u64, no_labels());
}

/// Records how long after a conflicting write its subscription was
/// invalidated, or that the time of the write is not known.
pub fn log_subscription_invalidation_lag(metrics: &mut MetricsRecorder, invalid_ts: Option<u64>, current_ts: u64)
    ensures
        final(metrics)@ == old(metrics)@.push(
            match invalid_ts {
                Some(ts) => timed(
                    "DATABASE_SUBSCRIPTION_INVALIDATION_LAG_SECONDS"@,
                    current_ts - ts,
                    unlabelled(),
                ),
                None => counted("DATABASE_SUBSCRIPTION_INVALIDATION_UNKNOWN_TOTAL"@, 1, unlabelled()),
            },
        ),
{
    match invalid_ts {
        Some(ts) => {
            metrics.time(
                "DATABASE_SUBSCRIPTION_INVALIDATION_LAG_SECONDS",
                current_ts as i128 - ts as i128,
                no_labels(),
            );
        },
        None => {
            metrics.count("DATABASE_SUBSCRIPTION_INVALIDATION_UNKNOWN_TOTAL", 1, no_labels());
        },
    }
}

/// Counts a commit that the committer had no room for, and says so.
pub fn committer_full_error(metrics: &mut MetricsRecorder) -> (r: ErrorMetadata)
    ensures
        final(metrics)@ == old(metrics)@.push(
            counted("DATABASE_COMMITTER_FULL_TOTAL"@, 1, unlabelled()),
        ),
        r.class == ErrorClass::Overloaded,
        r.short_msg@ == "CommitterFullError"@,
        r.msg@
            == "Too many concurrent commits in a short period of time. Spread your writes out over time or throttle them to avoid errors."@,
{
    metrics.count("DATABASE_COMMITTER_FULL_TOTAL", 1, no_labels());
    ErrorMetadata {
        class: ErrorClass::Overloaded,
        short_msg: "CommitterFullError",
        msg: "Too many concurrent commits in a short period of time. Spread your writes out over time or throttle them to avoid errors.",
    }
}

/// Counts a subscription that the worker had no room for, and says so.
pub fn subscriptions_worker_full_error(metrics: &mut MetricsRecorder) -> (r: ErrorMetadata)
    ensures
        final(metrics)@ == old(metrics)@.push(
            counted("SUBSCRIPTIONS_WORKER_FULL_TOTAL"@, 1, unlabelled()),
        ),
        r.class == ErrorClass::Overloaded,
        r.short_msg@ == "SubscriptionsWorkerFullError"@,
        r.msg@
            == "Too many concurrent subscription requests in a short period of time. Reduce the number of subscriptions or throttle them to avoid errors."@,
{
    metrics.count("SUBSCRIPTIONS_WORKER_FULL_TOTAL", 1, no_labels());
    ErrorMetadata {
        class: ErrorClass::Overloaded,
        short_msg: "SubscriptionsWorkerFullError",
        msg: "Too many concurrent subscription requests in a short period of time. Reduce the number of subscriptions or throttle them to avoid errors.",
    }
}

/// Counts a request that met a database on its way down, and says so.
pub fn shutdown_error(metrics: &mut MetricsRecorder) -> (r: ErrorMetadata)
    ensures
        final(metrics)@ == old(metrics)@.push(counted("SHUTDOWN_TOTAL"@, 1, unlabelled())),
        r.class == ErrorClass::OperationalInternalServerError,
        r.short_msg@ == "InternalServerError"@,
        r.msg@ == "Database Shutting Down"@,
{
    metrics.count("SHUTDOWN_TOTAL", 1, no_labels());
    ErrorMetadata {
        class: ErrorClass::OperationalInternalServerError,
        short_msg: "InternalServerError",
        msg: "Database Shutting Down",
    }
}

/// The labels of a document that retention looked at.
pub open spec fn scanned_labels(is_tombstone: bool, has_prev_rev: bool) -> Seq<(Seq<char>, Seq<char>)> {
    seq![
        (
            "tombstone"@,
            if is_tombstone {
                "is_tombstone"@
            } else {
                "is_document"@
            },
        ),
        (
            "prev_rev"@,
            if has_prev_rev {
                "has_prev_rev"@
            } else {
                "no_prev_rev"@
            },
        ),
    ]
}

fn labels_of_scanned(is_tombstone: bool, has_prev_rev: bool) -> (r: Vec<Label>)
    ensures
        labels_of(r@) == scanned_labels(is_tombstone, has_prev_rev),
{
    two_labels(
        label(
            "tombstone",
            if is_tombstone {
                "is_tombstone"
            } else {
                "is_document"
            },
        ),
        label(
            "prev_rev",
            if has_prev_rev {
                "has_prev_rev"
            } else {
                "no_prev_rev"
            },
        ),
    )
}

/// Counts a document that index retention looked at.
pub fn log_index_retention_scanned_document(metrics: &mut MetricsRecorder, is_tombstone: bool, has_prev_rev: bool)
    ensures
        final(metrics)@ == old(metrics)@.push(
            counted(
                "INDEX_RETENTION_SCANNED_DOCUMENT_TOTAL"@,
                1,
                scanned_labels(is_tombstone, has_prev_rev),
            ),
        ),
{
    let labels = labels_of_scanned(is_tombstone, has_prev_rev);
    metrics.count("INDEX_RETENTION_SCANNED_DOCUMENT_TOTAL", 1, labels);
}

/// Counts a document that document retention looked at.
pub fn log_document_retention_scanned_document(metrics: &mut MetricsRecorder, is_tombstone: bool, has_prev_rev: bool)
    ensures
        final(metrics)@ == old(metrics)@.push(
            counted(
                "DOCUMENT_RETENTION_SCANNED_DOCUMENT_TOTAL"@,
                1,
                scanned_labels(is_tombstone, has_prev_rev),
            ),
        ),
{
    let labels = labels_of_scanned(is_tombstone, has_prev_rev);
    metrics.count("DOCUMENT_RETENTION_SCANNED_DOCUMENT_TOTAL", 1, labels);
}

/// Counts an index entry that retention may delete, with the reason.
pub fn log_retention_expired_index_entry(
    metrics: &mut MetricsRecorder,
    is_tombstone: bool,
    is_key_change_tombstone: bool,
)
    ensures
        final(metrics)@ == old(metrics)@.push(
            counted(
                "RETENTION_EXPIRED_INDEX_ENTRY_TOTAL"@,
                1,
                seq![
                    (
                        "reason"@,
                        if !is_tombstone {
                            "overwritten"@
                        } else if is_key_change_tombstone {
                            "key_change_tombstone"@
                        } else {
                            "tombstone"@
                        },
                    ),
                ],
            ),
        ),
{
    let reason = if is_tombstone {
        if is_key_change_tombstone {
            "key_change_tombstone"
        } else {
            "tombstone"
        }
    } else {
        "overwritten"
    };
    metrics.count("RETENTION_EXPIRED_INDEX_ENTRY_TOTAL", 1, one_label(label("reason", reason)));
}

/// Counts an advance of the retention timestamp.
pub fn log_retention_ts_advanced(metrics: &mut MetricsRecorder, ty: RetentionType)
    ensures
        final(metrics)@ == old(metrics)@.push(
            counted(
                "RETENTION_TS_ADVANCED_TOTAL"@,
                1,
                seq![
                    (
                        "type"@,
                        match ty {
                            RetentionType::Document => "document"@,
                            RetentionType::Index => "index"@,
                        },
                    ),
                ],
            ),
        ),
{
    let name = match ty {
        RetentionType::Document => "document",
        RetentionType::Index => "index",
    };
    metrics.count("RETENTION_TS_ADVANCED_TOTAL", 1, one_label(label("type", name)));
}

/// The samples of a snapshot that was checked against retention.
pub open spec fn verification_samples(
    now: Option<u64>,
    snapshot: u64,
    min_snapshot_ts: u64,
    optimistic: bool,
    leader: bool,
) -> Seq<Measured> {
    let labels = seq![("optimistic"@, flag_text(optimistic)), ("leader"@, flag_text(leader))];
    let outside = if snapshot < min_snapshot_ts {
        seq![counted("OUTSIDE_RETENTION_TOTAL"@, 1, labels)]
    } else {
        Seq::empty()
    };
    let age = match now {
        Some(ts) => seq![timed("SNAPSHOT_AGE_SECONDS"@, ts - snapshot, labels)],
        None => Seq::empty(),
    };
    outside + age + seq![
        timed("SNAPSHOT_BUFFER_VS_MIN_SNAPSHOT_SECONDS"@, snapshot - min_snapshot_ts, labels),
    ]
}

/// Records how old a snapshot is and how far it is from being too old, and
/// counts it where it is. The age is left out when the time is not known.
pub fn log_snapshot_verification_age(
    metrics: &mut MetricsRecorder,
    now: Option<u64>,
    snapshot: u64,
    min_snapshot_ts: u64,
    optimistic: bool,
    leader: bool,
)
    ensures
        final(metrics)@ == old(metrics)@ + verification_samples(
            now,
            snapshot,
            min_snapshot_ts,
            optimistic,
            leader,
        ),
{
    let ghost before = metrics@;
    if snapshot < min_snapshot_ts {
        metrics.count(
            "OUTSIDE_RETENTION_TOTAL",
            1,
            two_labels(flag_label("optimistic", optimistic), flag_label("leader", leader)),
        );
    }
    if let Some(ts) = now {
        metrics.time(
            "SNAPSHOT_AGE_SECONDS",
            ts as i128 - snapshot as i128,
            two_labels(flag_label("optimistic", optimistic), flag_label("leader", leader)),
        );
    }
    metrics.time(
        "SNAPSHOT_BUFFER_VS_MIN_SNAPSHOT_SECONDS",
        snapshot as i128 - min_snapshot_ts as i128,
        two_labels(flag_label("optimistic", optimistic), flag_label("leader", leader)),
    );
    assert(metrics@ =~= before + verification_samples(now, snapshot, min_snapshot_ts, optimistic, leader));
}

/// Records what bootstrapping the search indexes read, and ends its timer.
pub fn finish_bootstrap(metrics: &mut MetricsRecorder, num_revisions: usize, bytes: usize, timer: Timer, nanos: u64)
    ensures
        final(metrics)@ == old(metrics)@.push(
            counted("SEARCH_AND_VECTOR_BOOTSTRAP_REVISIONS_TOTAL"@, num_revisions as int, unlabelled()),
        ).push(
            counted("SEARCH_AND_VECTOR_BOOTSTRAP_REVISIONS_BYTES"@, bytes as int, unlabelled()),
        ).push(timer@.sample(nanos as int, true)),
{
    metrics.count("SEARCH_AND_VECTOR_BOOTSTRAP_REVISIONS_TOTAL", num_revisions as u64, no_labels());
    metrics.count("SEARCH_AND_VECTOR_BOOTSTRAP_REVISIONS_BYTES", bytes as u64, no_labels());
    timer.finish(metrics, nanos);
}

/// The labels with each one that is `from` written as `to`.
pub open spec fn relabelled(
    labels: Seq<(Seq<char>, Seq<char>)>,
    from: (Seq<char>, Seq<char>),
    to: (Seq<char>, Seq<char>),
) -> Seq<(Seq<char>, Seq<char>)> {
    labels.map_values(
        |l: (Seq<char>, Seq<char>)|
            if l == from {
                to
            } else {
                l
            },
    )
}

/// Ends the timer of a search index commit, whose kind of merge is known by
/// now and takes the place of the unknown one.
pub fn finish_search_index_merge_timer(
    metrics: &mut MetricsRecorder,
    timer: Timer,
    merge_type: SearchIndexMergeType,
    nanos: u64,
)
    ensures
        final(metrics)@ == old(metrics)@.push(
            (Timing {
                labels: relabelled(
                    timer@.labels,
                    SearchIndexMergeType::Unknown.label_text(),
                    merge_type.label_text(),
                ),
                ..timer@
            }).sample(nanos as int, true),
        ),
{
    let unknown = SearchIndexMergeType::Unknown.metric_label();
    let mut labels: Vec<Label> = Vec::new();
    let mut i: usize = 0;
    while i < timer.labels.len()
        invariant
            i <= timer.labels@.len(),
            unknown@ == SearchIndexMergeType::Unknown.label_text(),
            labels_of(labels@) == relabelled(
                labels_of(timer.labels@.take(i as int)),
                SearchIndexMergeType::Unknown.label_text(),
                merge_type.label_text(),
            ),
        decreases timer.labels@.len() - i,
    {
        let l = &timer.labels[i];
        let ghost before = labels@;
        if text::same(l.name.as_str(), unknown.name.as_str())
            && text::same(l.value.as_str(), unknown.value.as_str()) {
            labels.push(merge_type.metric_label());
        } else {
            labels.push(label(l.name.as_str(), l.value.as_str()));
        }
        assert(labels_of(labels@) =~= labels_of(before).push(labels@[i as int]@));
        assert(labels_of(labels@) =~= relabelled(
            labels_of(timer.labels@.take(i + 1)),
            SearchIndexMergeType::Unknown.label_text(),
            merge_type.label_text(),
        ));
        i += 1;
    }
    assert(timer.labels@.take(i as int) =~= timer.labels@);
    let known = Timer { metric: timer.metric, labels, status: timer.status };
    known.finish(metrics, nanos);
}

/// A level that several parties add to, each its own share.
///
/// A share can be changed and is taken back when its holder is done with it,
/// so that the gauge shows the sum of the shares that are held.
pub struct Subgauge {
    metric: &'static str,
    share: i64,
}

impl Subgauge {
    /// The metric this share belongs to.
    pub closed spec fn metric(&self) -> Seq<char> {
        self.metric@
    }

    /// What this party adds to the gauge.
    pub closed spec fn share(&self) -> int {
        self.share as int
    }

    /// Changes the share, and moves the gauge by the difference.
    pub fn set(&mut self, metrics: &mut MetricsRecorder, share: i64)
        ensures
            final(self).metric() == old(self).metric(),
            final(self).share() == share,
            final(metrics)@ == old(metrics)@.push(
                gauge_moved(old(self).metric(), share - old(self).share()),
            ),
    {
        let change: i128 = share as i128 - self.share as i128;
        metrics.record(
            Sample {
                metric: self.metric,
                kind: SampleKind::GaugeChange,
                amount: Amount::Count(change),
                labels: no_labels(),
            },
        );
        self.share = share;
    }

    /// Takes the share back.
    pub fn release(self, metrics: &mut MetricsRecorder)
        ensures
            final(metrics)@ == old(metrics)@.push(gauge_moved(self.metric(), -self.share())),
    {
        let change: i128 = 0 - self.share as i128;
        metrics.record(
            Sample {
                metric: self.metric,
                kind: SampleKind::GaugeChange,
                amount: Amount::Count(change),
                labels: no_labels(),
            },
        );
    }
}

/// A gauge that moved by `n`.
pub open spec fn gauge_moved(metric: Seq<char>, n: int) -> Measured {
    Measured {
        metric,
        kind: SampleKind::GaugeChange,
        amount: Amount::Count(n as i128),
        labels: unlabelled(),
    }
}

/// A share, still empty, of the total size of the documents in user tables.
pub fn user_documents_size_subgauge() -> (r: Subgauge)
    ensures
        r.metric() == "USER_DOCUMENTS_SIZE_BYTES"@,
        r.share() == 0,
{
    Subgauge { metric: "USER_DOCUMENTS_SIZE_BYTES", share: 0 }
}

/// Moves the length of the subscription queue.
pub fn log_subscription_queue_length_delta(metrics: &mut MetricsRecorder, delta: i64)
    ensures
        final(metrics)@ == old(metrics)@.push(
            gauge_moved("SUBSCRIPTION_QUEUE_LENGTH_INFO"@, delta as int),
        ),
{
    metrics.record(
        Sample {
            metric: "SUBSCRIPTION_QUEUE_LENGTH_INFO",
            kind: SampleKind::GaugeChange,
            amount: Amount::Count(delta as i128),
            labels: no_labels(),
        },
    );
}

/// A sample says what was measured, how it counts, how much it was and under which
/// labels.
pub proof fn samples_say_what_was_measured(metric: Seq<char>, n: i128, labels: Seq<(Seq<char>, Seq<char>)>)
    ensures
        counted(metric, n as int, labels) == (Measured {
            metric,
            kind: SampleKind::Counter,
            amount: Amount::Count(n),
            labels,
        }),
        gauged(metric, n as int, labels) == (Measured {
            metric,
            kind: SampleKind::Gauge,
            amount: Amount::Count(n),
            labels,
        }),
        observed(metric, n as int, labels) == (Measured {
            metric,
            kind: SampleKind::Distribution,
            amount: Amount::Count(n),
            labels,
        }),
        timed(metric, n as int, labels) == (Measured {
            metric,
            kind: SampleKind::Distribution,
            amount: Amount::Nanos(n),
            labels,
        }),
        gauge_moved(metric, n as int) == (Measured {
            metric,
            kind: SampleKind::GaugeChange,
            amount: Amount::Count(n),
            labels: Seq::empty(),
        }),
        unlabelled().len() == 0,
        status_text(true) == "success"@ && status_text(false) == "error"@,
        flag_text(true) == "true"@ && flag_text(false) == "false"@,
{
}

/// A timer shows how its work ended where it says so: what finished has succeeded,
/// and what did not has failed or was canceled.
pub proof fn timers_show_how_work_ended(t: Timing, nanos: i128, finished: bool)
    ensures
        t.sample(nanos as int, finished).metric == t.metric,
        t.sample(nanos as int, finished).amount == Amount::Nanos(nanos),
        t.sample(nanos as int, finished).labels == t.final_labels(finished),
        t.status == TimerStatus::Plain ==> t.final_labels(finished) == t.labels,
        t.status != TimerStatus::Plain ==> t.final_labels(true) == t.labels.push(
            ("status"@, "success"@),
        ),
        t.status == TimerStatus::ErrorUnlessFinished ==> t.final_labels(false) == t.labels.push(
            ("status"@, "error"@),
        ),
        t.status == TimerStatus::CanceledUnlessFinished ==> t.final_labels(false) == t.labels.push(
            ("status"@, "canceled"@),
        ),
        plain_timing(t.metric, t.labels).status == TimerStatus::Plain,
        status_timing(t.metric, t.labels).status == TimerStatus::ErrorUnlessFinished,
        cancelable_timing(t.metric, t.labels).status == TimerStatus::CanceledUnlessFinished,
        status_timing(t.metric, t.labels).metric == t.metric,
        status_timing(t.metric, t.labels).labels == t.labels,
{
}

/// A quorum is the smallest number of voters of which any two groups share one.
pub proof fn quorums_meet(voters: nat)
    requires
        voters > 0,
    ensures
        2 * quorum(voters) > voters,
        2 * (quorum(voters) - 1) <= voters,
        quorum(voters) <= voters,
        quorum(0) == 0,
{
}

/// A group lacks voters where any is inactive, and cannot decide where fewer than a
/// quorum are active; its health shows both, and how far its followers are behind.
pub proof fn groups_show_their_health(
    partition: PartitionId,
    configured: u64,
    active: u64,
    lagging: u64,
    max_lag: u64,
    total_lag: u64,
)
    ensures
        under_replicated(configured as nat, active as nat) <==> active < configured,
        quorum_unavailable(configured as nat, active as nat) <==> configured > 0 && 2 * active
            <= configured,
        ({
            let samples = replication_health(
                partition,
                configured as nat,
                active as nat,
                lagging as nat,
                max_lag as nat,
                total_lag as nat,
            );
            &&& samples.len() == 7
            &&& samples[0].amount == Amount::Count(configured as i128)
            &&& samples[1].amount == Amount::Count(active as i128)
            &&& samples[2].amount == Amount::Count(lagging as i128)
            &&& samples[3].amount == Amount::Count(max_lag as i128)
            &&& samples[4].amount == Amount::Count(total_lag as i128)
            &&& samples[5].amount == Amount::Count(
                if active < configured {
                    1
                } else {
                    0
                },
            )
            &&& samples[6].amount == Amount::Count(
                if configured > 0 && 2 * active <= configured {
                    1
                } else {
                    0
                },
            )
            &&& forall|i: int|
                0 <= i < 7 ==> (#[trigger] samples[i]).labels == seq![
                    ("partition"@, text::dec(partition.0 as nat)),
                ] && samples[i].kind == SampleKind::Gauge
        }),
{
}

/// The load of each partition is observed, its writes and its reads, under its
/// number, in the order of the partitions.
pub proof fn loads_are_observed_by_partition(
    loads: Seq<(PartitionId, usize, usize)>,
    load: (PartitionId, usize, usize),
)
    ensures
        load_observations(Seq::empty()).len() == 0,
        load_observations(loads.push(load)).take(load_observations(loads).len() as int)
            == load_observations(loads),
        load_observations(loads.push(load)).len() == load_observations(loads).len() + 2,
        ({
            let n = load_observations(loads).len() as int;
            let writes = load_observations(loads.push(load))[n];
            let reads = load_observations(loads.push(load))[n + 1];
            &&& writes.amount == Amount::Count(load.2 as i128)
            &&& writes.metric == "DATABASE_CONFLICT_CHECK_SHARD_WRITES_TOTAL"@
            &&& reads.amount == Amount::Count(load.1 as i128)
            &&& reads.metric == "DATABASE_CONFLICT_CHECK_SHARD_READS_TOTAL"@
            &&& writes.labels == seq![("partition"@, text::dec(load.0.0 as nat))]
            &&& reads.labels == seq![("partition"@, text::dec(load.0.0 as nat))]
        }),
{
    assert(loads.push(load).drop_last() == loads);
    assert(load_observations(loads.push(load)).take(load_observations(loads).len() as int)
        =~= load_observations(loads));
}

/// A snapshot is counted as outside of retention exactly where it is before the
/// earliest one kept; its age is measured where the time is known.
pub proof fn snapshots_are_measured_against_retention(
    now: Option<u64>,
    snapshot: u64,
    min_snapshot_ts: u64,
    optimistic: bool,
    leader: bool,
)
    ensures
        ({
            let samples = verification_samples(now, snapshot, min_snapshot_ts, optimistic, leader);
            let outside: int = if snapshot < min_snapshot_ts {
                1
            } else {
                0
            };
            let aged: int = if now is Some {
                1
            } else {
                0
            };
            &&& samples.len() == outside + aged + 1
            &&& outside == 1 ==> samples[0].kind == SampleKind::Counter && samples[0].amount
                == Amount::Count(1)
            &&& now matches Some(ts) ==> samples[outside].amount == Amount::Nanos(
                (ts - snapshot) as i128,
            )
            &&& samples[outside + aged].amount == Amount::Nanos(
                (snapshot - min_snapshot_ts) as i128,
            )
        }),
{
}

/// Relabelling changes one label wherever it is, and no other.
pub proof fn relabelling_changes_one_label(
    labels: Seq<(Seq<char>, Seq<char>)>,
    from: (Seq<char>, Seq<char>),
    to: (Seq<char>, Seq<char>),
    i: int,
)
    requires
        0 <= i < labels.len(),
    ensures
        relabelled(labels, from, to).len() == labels.len(),
        labels[i] == from ==> relabelled(labels, from, to)[i] == to,
        labels[i] != from ==> relabelled(labels, from, to)[i] == labels[i],
{
}

} // verus!
