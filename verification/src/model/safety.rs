//! The invariant that every operation of the cluster keeps.
use crate::model::state::{ClusterState, TxnState, World};
use crate::model::state;
use crate::network::{EnvelopeView, MsgView};
use crate::types::{Key, Ts, TxnId, Value};
use vstd::prelude::*;

verus! {

/// The committed versions of `key`, as the history tells.
pub open spec fn timeline(history: Seq<TxnState>, key: Key) -> Map<Ts, Value>
    decreases history.len(),
{
    if history.len() == 0 {
        Map::empty()
    } else {
        let m = timeline(history.drop_last(), key);
        let t = history.last();
        if t.writes.contains_key(key) {
            m.insert(t.commit_ts, t.writes[key])
        } else {
            m
        }
    }
}

/// The value of `key` in the snapshot at `ts`, as the history tells.
pub open spec fn seen_at(history: Seq<TxnState>, key: Key, ts: Ts) -> Value {
    match state::newest(state::up_to(timeline(history, key), ts)) {
        Some((t, v)) => v,
        None => 0,
    }
}

/// Number of prepare requests among `q`.
pub open spec fn prepares(q: Seq<EnvelopeView>) -> nat
    decreases q.len(),
{
    if q.len() == 0 {
        0
    } else {
        prepares(q.drop_last()) + (if q.last().msg is Prepare {
            1nat
        } else {
            0nat
        })
    }
}

impl ClusterState {
    /// Only finitely much has happened.
    pub open spec fn finite(self) -> bool {
        &&& self.pending_prepares.dom().finite()
        &&& forall|i: int|
            0 <= i < self.nodes.len() ==> (#[trigger] self.nodes[i]).coordinating.dom().finite()
        &&& forall|i: int, t: TxnId| #[trigger]
            self.nodes[i].coordinating.contains_key(t) && 0 <= i < self.nodes.len()
                ==> self.nodes[i].coordinating[t].writes.dom().finite()
    }

    /// The floor is below everything that can still commit, and the oracle is
    /// ahead of everything that has committed.
    pub open spec fn clocked(self) -> bool {
        &&& self.committed_floor <= self.max_applied < self.tso_next
        &&& forall|p: Ts| #[trigger]
            self.pending_prepares.contains_key(p) ==> self.committed_floor < p < self.tso_next
        &&& forall|i: int|
            0 <= i < self.history.len() ==> (#[trigger] self.history[i]).begin_ts
                <= self.committed_floor && self.history[i].begin_ts < self.history[i].commit_ts
                && self.history[i].commit_ts <= self.max_applied
    }

    /// Commit timestamps are unique, among the committed and the undecided.
    pub open spec fn unique_commits(self) -> bool {
        &&& forall|i: int, j: int|
            0 <= i < j < self.history.len() ==> (#[trigger] self.history[i]).commit_ts != (
            #[trigger] self.history[j]).commit_ts
        &&& forall|i: int|
            0 <= i < self.history.len() ==> !self.pending_prepares.contains_key(
                (#[trigger] self.history[i]).commit_ts,
            )
    }

    /// An undecided transaction holds the floor below its timestamp, with the
    /// keys it will write.
    pub open spec fn held(self) -> bool {
        &&& forall|i: int, t: TxnId|
            0 <= i < self.nodes.len() && #[trigger] self.nodes[i].undecided(t) ==> {
                let c = self.nodes[i].coordinating[t];
                &&& self.pending_prepares.contains_key(c.prepare_ts)
                &&& self.pending_prepares[c.prepare_ts] == c.writes.dom()
                &&& c.begin_ts <= self.committed_floor
                &&& c.started_at <= self.now
            }
        &&& forall|i: int, t: TxnId, j: int, u: TxnId|
            0 <= i < self.nodes.len() && 0 <= j < self.nodes.len()
                && #[trigger] self.nodes[i].undecided(t) && #[trigger] self.nodes[j].undecided(u)
                && self.nodes[i].coordinating[t].prepare_ts
                == self.nodes[j].coordinating[u].prepare_ts ==> i == j && t == u
    }

    /// Every transaction has one coordinator, and the decision log knows
    /// exactly the decided ones.
    pub open spec fn logged(self) -> bool {
        &&& forall|i: int, t: TxnId|
            0 <= i < self.nodes.len() && #[trigger] self.nodes[i].coordinating.contains_key(t)
                ==> t < self.next_txn && self.nodes[i].coordinating[t].decided
                == self.decisions.contains_key(t)
        &&& forall|t: TxnId| #[trigger] self.decisions.contains_key(t) ==> t < self.next_txn
        &&& forall|i: int, j: int, t: TxnId|
            0 <= i < self.nodes.len() && 0 <= j < self.nodes.len()
                && #[trigger] self.nodes[i].coordinating.contains_key(t)
                && #[trigger] self.nodes[j].coordinating.contains_key(t) ==> i == j
    }

    /// `txn` has an outcome or a coordinator that will give it one.
    pub open spec fn resolvable(self, txn: TxnId) -> bool {
        self.decisions.contains_key(txn) || exists|i: int|
            0 <= i < self.nodes.len() && #[trigger] self.nodes[i].undecided(txn)
    }

    /// Every prepared slice belongs to a resolvable transaction.
    pub open spec fn intents_resolvable(self) -> bool {
        forall|i: int, t: TxnId|
            0 <= i < self.nodes.len() && #[trigger] self.nodes[i].prepared.contains_key(t)
                ==> self.resolvable(t)
    }

    /// The owners' stores hold what the history says.
    pub open spec fn stored(self) -> bool {
        forall|k: Key|
            self.node(self.owner(k)).versions(k) == #[trigger] timeline(self.history, k)
    }

    /// No committed transaction missed a write between its snapshot and its
    /// commit, and no undecided one can still slip such a write in.
    pub open spec fn serialized(self) -> bool {
        &&& forall|i: int, k: Key, t: Ts|
            0 <= i < self.history.len() && #[trigger] self.history[i].reads.contains_key(k)
                && #[trigger] timeline(self.history, k).contains_key(t) ==> !(
            self.history[i].begin_ts < t < self.history[i].commit_ts)
        &&& forall|i: int, k: Key, p: Ts|
            0 <= i < self.history.len() && #[trigger] self.history[i].reads.contains_key(k)
                && #[trigger] self.pending_prepares.contains_key(p) && self.history[i].begin_ts < p
                < self.history[i].commit_ts ==> !self.pending_prepares[p].contains(k)
    }

    /// Every read saw the value of its snapshot.
    pub open spec fn snapshots(self) -> bool {
        &&& forall|i: int, k: Key|
            0 <= i < self.history.len() && #[trigger] self.history[i].reads.contains_key(k)
                ==> self.history[i].reads[k] == seen_at(
                self.history,
                k,
                self.history[i].begin_ts,
            )
        &&& forall|i: int, t: TxnId, k: Key|
            0 <= i < self.nodes.len() && self.nodes[i].undecided(t)
                && #[trigger] self.nodes[i].coordinating[t].reads.contains_key(k)
                ==> self.nodes[i].coordinating[t].reads[k] == seen_at(
                self.history,
                k,
                self.nodes[i].coordinating[t].begin_ts,
            )
    }

    /// Floor and frontiers have only moved up, and nothing was seen to regress.
    pub open spec fn monotonic(self) -> bool {
        &&& forall|i: int, j: int|
            0 <= i < j < self.floor_samples.len() ==> #[trigger] self.floor_samples[i]
                <= #[trigger] self.floor_samples[j]
        &&& forall|i: int|
            0 <= i < self.floor_samples.len() ==> #[trigger] self.floor_samples[i]
                <= self.committed_floor
        &&& forall|i: int, j: int|
            0 <= i < j < self.frontier_samples.len() && (#[trigger] self.frontier_samples[i]).0 == (
            #[trigger] self.frontier_samples[j]).0 && self.frontier_samples[i].1
                == self.frontier_samples[j].1 ==> self.frontier_samples[i].2
                <= self.frontier_samples[j].2
        &&& forall|i: int|
            0 <= i < self.frontier_samples.len() ==> (#[trigger] self.frontier_samples[i]).0
                < self.num_partitions && self.frontier_samples[i].2 <= self.node(
                self.frontier_samples[i].0,
            ).frontier_of(self.frontier_samples[i].1)
        &&& self.live_violations.len() == 0
    }

    /// `s` owes nothing to entry `e` of the log: it is invalidated, or its node
    /// has the entry still ahead of it.
    pub open spec fn covered(self, s: int, e: int) -> bool {
        let sub = self.subs[s];
        let entry = self.commit_log[e];
        entry.ts > sub.registered_ts && state::touches(entry.writes, sub.read_keys) ==> {
            ||| sub.invalidated
            ||| (entry.source != sub.node && self.node(sub.node).cursor <= e)
        }
    }

    /// Every committed write is in the log, and every subscription is
    /// invalidated or has the write that concerns it still ahead.
    pub open spec fn watched_over(self) -> bool {
        &&& forall|i: int|
            0 <= i < self.nodes.len() ==> (#[trigger] self.nodes[i]).cursor
                <= self.commit_log.len()
        &&& forall|s: int|
            0 <= s < self.subs.len() ==> (#[trigger] self.subs[s]).node < self.num_partitions
        &&& forall|s: int, e: int|
            0 <= s < self.subs.len() && 0 <= e < self.commit_log.len() ==> #[trigger] self.covered(
                s,
                e,
            )
        &&& forall|i: int, k: Key|
            0 <= i < self.history.len() && #[trigger] self.history[i].writes.contains_key(k)
                ==> self.in_log(self.history[i].commit_ts, k)
    }

    /// The log has an entry for the write of `key` at `ts`.
    pub open spec fn in_log(self, ts: Ts, key: Key) -> bool {
        exists|e: int|
            0 <= e < self.commit_log.len() && (#[trigger] self.commit_log[e]).ts == ts
                && state::writes_key(self.commit_log[e].writes, key)
    }

    /// The counters never run ahead of the timestamp oracle.
    pub open spec fn counted(self) -> bool {
        &&& self.next_txn <= self.tso_next
        &&& self.next_value < 2 * self.tso_next
        &&& self.next_txn_record + self.pending_prepares.dom().len() <= self.tso_next
    }

    /// The cluster's part of the invariant.
    pub open spec fn inv(self) -> bool {
        &&& self.shaped()
        &&& self.paired()
        &&& self.finite()
        &&& self.key_space() <= u32::MAX
        &&& self.clocked()
        &&& self.unique_commits()
        &&& self.held()
        &&& self.logged()
        &&& self.intents_resolvable()
        &&& self.stored()
        &&& self.serialized()
        &&& self.snapshots()
        &&& self.monotonic()
        &&& self.watched_over()
        &&& self.counted()
    }

    /// `e` can be delivered, and if it is a prepare its transaction is
    /// resolvable.
    pub open spec fn expects(self, e: EnvelopeView) -> bool {
        &&& self.has_recipient(e)
        &&& match e.msg {
            MsgView::Prepare { txn, .. } => self.resolvable(txn),
            _ => true,
        }
    }

    /// Every envelope of `q` is expected.
    pub open spec fn expects_all(self, q: Seq<EnvelopeView>) -> bool {
        forall|i: int| 0 <= i < q.len() ==> self.expects(#[trigger] q[i])
    }
}

impl World {
    /// The invariant of the whole, while the envelopes of `rest` have left the
    /// transport but are not delivered yet.
    pub open spec fn inv(self, rest: Seq<EnvelopeView>) -> bool {
        &&& self.cluster.inv()
        &&& self.cluster.expects_all(self.net.in_flight)
        &&& self.cluster.expects_all(rest)
        &&& self.frugal(rest)
    }

    /// Messages still to be sent on behalf of what has been started.
    pub open spec fn outstanding(self, rest: Seq<EnvelopeView>) -> nat {
        prepares(self.net.in_flight) + prepares(rest) + 2
            * self.cluster.pending_prepares.dom().len()
    }

    /// The transport's counters never run ahead of the timestamp oracle: each
    /// timestamp accounts for at most eight messages.
    pub open spec fn frugal(self, rest: Seq<EnvelopeView>) -> bool {
        &&& self.net.next_seq + 2 * self.outstanding(rest) <= 16 * self.cluster.tso_next
        &&& self.net.dropped + self.outstanding(rest) <= 8 * self.cluster.tso_next
        &&& self.net.duplicated + self.outstanding(rest) <= 8 * self.cluster.tso_next
    }
}

} // verus!
