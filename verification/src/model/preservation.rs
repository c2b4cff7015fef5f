//! Every operation of the cluster keeps the invariant.
use crate::model::safety;
use crate::model::state::{ClusterState, CoordState, Decision, EntryState, NodeState, TxnState};
use crate::model::state;
use crate::ordered;
use crate::types::{Key, NodeId, Ts, TxnId, Value};
use vstd::prelude::*;

verus! {

/// Timelines are finite.
pub proof fn lemma_timeline_finite(history: Seq<TxnState>, key: Key)
    ensures
        safety::timeline(history, key).dom().finite(),
    decreases history.len(),
{
    if history.len() > 0 {
        lemma_timeline_finite(history.drop_last(), key);
    }
}

/// Every point of a timeline is a commit in the history, and conversely.
pub proof fn lemma_timeline_points(history: Seq<TxnState>, key: Key)
    ensures
        forall|t: Ts| #[trigger]
            safety::timeline(history, key).contains_key(t) ==> exists|i: int|
                0 <= i < history.len() && (#[trigger] history[i]).commit_ts == t
                    && history[i].writes.contains_key(key),
        forall|i: int|
            0 <= i < history.len() && (#[trigger] history[i]).writes.contains_key(key)
                ==> safety::timeline(history, key).contains_key(history[i].commit_ts),
    decreases history.len(),
{
    if history.len() > 0 {
        let h = history.drop_last();
        lemma_timeline_points(h, key);
        let m = safety::timeline(history, key);
        assert forall|t: Ts| #[trigger] m.contains_key(t) implies exists|i: int|
            0 <= i < history.len() && (#[trigger] history[i]).commit_ts == t
                && history[i].writes.contains_key(key) by {
            if history.last().writes.contains_key(key) && history.last().commit_ts == t {
                assert(history[history.len() - 1].commit_ts == t);
            } else {
                assert(safety::timeline(h, key).contains_key(t));
                let i = choose|i: int|
                    0 <= i < h.len() && (#[trigger] h[i]).commit_ts == t
                        && h[i].writes.contains_key(key);
                assert(history[i] == h[i]);
            }
        }
        assert forall|i: int|
            0 <= i < history.len() && (#[trigger] history[i]).writes.contains_key(
                key,
            ) implies m.contains_key(history[i].commit_ts) by {
            if i < h.len() {
                assert(h[i] == history[i]);
                assert(safety::timeline(h, key).contains_key(h[i].commit_ts));
            }
        }
    }
}

/// The floor can follow at any time.
pub proof fn lemma_refloored(c: ClusterState)
    requires
        c.inv(),
    ensures
        c.refloored().inv(),
{
    let r = c.refloored();
    if c.pending_prepares.dom().len() > 0 {
        ordered::lemma_least_u64(c.pending_prepares.dom());
    } else {
        assert(c.pending_prepares.dom() =~= Set::empty());
    }
    assert forall|p: Ts| #[trigger] r.pending_prepares.contains_key(p) implies r.committed_floor < p
        < r.tso_next by {
        assert(c.pending_prepares.contains_key(p));
        assert(c.pending_prepares.dom().contains(p));
    }
    assert(r.clocked());
    assert(r.held());
    assert forall|i: int, j: int|
        0 <= i < j < r.floor_samples.len() implies #[trigger] r.floor_samples[i]
        <= #[trigger] r.floor_samples[j] by {
        if j < c.floor_samples.len() {
            assert(c.floor_samples[i] <= c.floor_samples[j]);
        } else {
            assert(c.floor_samples[i] <= c.committed_floor);
        }
    }
    assert forall|i: int| 0 <= i < r.floor_samples.len() implies #[trigger] r.floor_samples[i]
        <= r.committed_floor by {
        if i < c.floor_samples.len() {
            assert(c.floor_samples[i] <= c.committed_floor);
        }
    }
    assert(r.monotonic());
    assert(r.stored());
    assert(r.intents_resolvable()) by {
        assert forall|i: int, t: TxnId|
            0 <= i < r.nodes.len() && #[trigger] r.nodes[i].prepared.contains_key(
                t,
            ) implies r.resolvable(t) by {
            assert(c.nodes[i].prepared.contains_key(t));
            assert(c.resolvable(t));
        }
    }
    assert(r.watched_over()) by {
        assert forall|s: int, e: int|
            0 <= s < r.subs.len() && 0 <= e < r.commit_log.len() implies #[trigger] r.covered(
            s,
            e,
        ) by {
            assert(c.covered(s, e));
        }
        assert forall|i: int, k: Key|
            0 <= i < r.history.len() && #[trigger] r.history[i].writes.contains_key(
                k,
            ) implies r.in_log(r.history[i].commit_ts, k) by {
            assert(c.history[i].writes.contains_key(k));
            assert(c.in_log(c.history[i].commit_ts, k));
            let e = choose|e: int|
                0 <= e < c.commit_log.len() && (#[trigger] c.commit_log[e]).ts
                    == c.history[i].commit_ts && state::writes_key(c.commit_log[e].writes, k);
            assert(r.commit_log[e].ts == r.history[i].commit_ts);
        }
    }
}

/// The invariant does not speak of the trace, the placement versions or who is
/// up.
pub proof fn lemma_same_but_log(c: ClusterState, r: ClusterState)
    requires
        c.inv(),
        r.num_partitions == c.num_partitions,
        r.nodes.len() == c.nodes.len(),
        forall|i: int|
            0 <= i < c.nodes.len() ==> {
                let (a, b) = (#[trigger] r.nodes[i], c.nodes[i]);
                &&& a.store == b.store
                &&& a.frontier == b.frontier
                &&& a.prepared == b.prepared
                &&& a.coordinating == b.coordinating
                &&& a.cursor == b.cursor
            },
        r.tso_next == c.tso_next,
        r.committed_floor == c.committed_floor,
        r.max_applied == c.max_applied,
        r.pending_prepares == c.pending_prepares,
        r.decisions == c.decisions,
        r.commit_log == c.commit_log,
        r.next_txn == c.next_txn,
        r.next_value == c.next_value,
        r.next_txn_record == c.next_txn_record,
        r.history == c.history,
        r.subs == c.subs,
        r.live_violations == c.live_violations,
        r.floor_samples == c.floor_samples,
        r.frontier_samples == c.frontier_samples,
        r.now >= c.now,
    ensures
        r.inv(),
        forall|t: TxnId| c.resolvable(t) ==> #[trigger] r.resolvable(t),
{
    assert forall|i: int, t: TxnId| 0 <= i < c.nodes.len() implies #[trigger] r.nodes[i].undecided(t)
        == c.nodes[i].undecided(t) by {}
    assert forall|t: TxnId| c.resolvable(t) implies #[trigger] r.resolvable(t) by {
        if !c.decisions.contains_key(t) {
            let i = choose|i: int| 0 <= i < c.nodes.len() && #[trigger] c.nodes[i].undecided(t);
            assert(r.nodes[i].undecided(t));
        }
    }
    assert(r.paired()) by {
        assert forall|i: int, t: TxnId| #[trigger]
            r.nodes[i].coordinating.contains_key(t) && 0 <= i < r.nodes.len() implies r.small_group(
            r.nodes[i].coordinating[t].participants,
        ) by {
            assert(c.nodes[i].coordinating.contains_key(t));
        }
    }
    assert(r.finite()) by {
        assert forall|i: int, t: TxnId| #[trigger]
            r.nodes[i].coordinating.contains_key(t) && 0 <= i
                < r.nodes.len() implies r.nodes[i].coordinating[t].writes.dom().finite() by {
            assert(c.nodes[i].coordinating.contains_key(t));
        }
    }
    assert(r.held()) by {
        assert forall|i: int, t: TxnId|
            0 <= i < r.nodes.len() && #[trigger] r.nodes[i].undecided(t) implies {
            let s = r.nodes[i].coordinating[t];
            &&& r.pending_prepares.contains_key(s.prepare_ts)
            &&& r.pending_prepares[s.prepare_ts] == s.writes.dom()
            &&& s.begin_ts <= r.committed_floor
            &&& s.started_at <= r.now
        } by {
            assert(c.nodes[i].undecided(t));
        }
        assert forall|i: int, t: TxnId, j: int, u: TxnId|
            0 <= i < r.nodes.len() && 0 <= j < r.nodes.len() && #[trigger] r.nodes[i].undecided(t)
                && #[trigger] r.nodes[j].undecided(u) && r.nodes[i].coordinating[t].prepare_ts
                == r.nodes[j].coordinating[u].prepare_ts implies i == j && t == u by {
            assert(c.nodes[i].undecided(t) && c.nodes[j].undecided(u));
        }
    }
    assert(r.logged()) by {
        assert forall|i: int, t: TxnId|
            0 <= i < r.nodes.len() && #[trigger] r.nodes[i].coordinating.contains_key(t) implies t
            < r.next_txn && r.nodes[i].coordinating[t].decided == r.decisions.contains_key(t) by {
            assert(c.nodes[i].coordinating.contains_key(t));
        }
        assert forall|i: int, j: int, t: TxnId|
            0 <= i < r.nodes.len() && 0 <= j < r.nodes.len()
                && #[trigger] r.nodes[i].coordinating.contains_key(t)
                && #[trigger] r.nodes[j].coordinating.contains_key(t) implies i == j by {
            assert(c.nodes[i].coordinating.contains_key(t));
            assert(c.nodes[j].coordinating.contains_key(t));
        }
    }
    assert(r.intents_resolvable()) by {
        assert forall|i: int, t: TxnId|
            0 <= i < r.nodes.len() && #[trigger] r.nodes[i].prepared.contains_key(
                t,
            ) implies r.resolvable(t) by {
            assert(c.nodes[i].prepared.contains_key(t));
            assert(c.resolvable(t));
        }
    }
    assert(r.stored()) by {
        assert forall|k: Key|
            r.node(r.owner(k)).versions(k) == #[trigger] safety::timeline(r.history, k) by {
            assert(c.node(c.owner(k)).versions(k) == safety::timeline(c.history, k));
            assert(r.nodes[r.owner(k) as int].store == c.nodes[c.owner(k) as int].store);
        }
    }
    assert(r.snapshots()) by {
        assert forall|i: int, t: TxnId, k: Key|
            0 <= i < r.nodes.len() && r.nodes[i].undecided(t)
                && #[trigger] r.nodes[i].coordinating[t].reads.contains_key(
                k,
            ) implies r.nodes[i].coordinating[t].reads[k] == safety::seen_at(
            r.history,
            k,
            r.nodes[i].coordinating[t].begin_ts,
        ) by {
            assert(c.nodes[i].undecided(t));
            assert(c.nodes[i].coordinating[t].reads.contains_key(k));
        }
    }
    assert(r.monotonic()) by {
        assert forall|i: int| 0 <= i < r.frontier_samples.len() implies (
        #[trigger] r.frontier_samples[i]).0 < r.num_partitions && r.frontier_samples[i].2 <= r.node(
            r.frontier_samples[i].0,
        ).frontier_of(r.frontier_samples[i].1) by {
            let x = c.frontier_samples[i];
            assert(x.0 < c.num_partitions);
            assert(r.nodes[x.0 as int].frontier == c.nodes[x.0 as int].frontier);
        }
    }
    assert(r.watched_over()) by {
        assert forall|s: int, e: int|
            0 <= s < r.subs.len() && 0 <= e < r.commit_log.len() implies #[trigger] r.covered(
            s,
            e,
        ) by {
            assert(c.covered(s, e));
            assert(c.subs[s].node < c.num_partitions);
            assert(r.nodes[c.subs[s].node as int].cursor == c.nodes[c.subs[s].node as int].cursor);
        }
        assert forall|i: int, k: Key|
            0 <= i < r.history.len() && #[trigger] r.history[i].writes.contains_key(
                k,
            ) implies r.in_log(r.history[i].commit_ts, k) by {
            assert(c.in_log(c.history[i].commit_ts, k));
        }
    }
}

/// An undecided transaction is decided and stops holding the floor.
pub proof fn lemma_resolved(
    c: ClusterState,
    node: NodeId,
    txn: TxnId,
    entry: CoordState,
    d: Decision,
)
    requires
        c.inv(),
        node < c.num_partitions,
        c.node(node).undecided(txn),
        entry.decided,
        c.small_group(entry.participants),
        entry.writes.dom().finite(),
    ensures
        ({
            let ts = c.node(node).coordinating[txn].prepare_ts;
            let r = c.with_coord(node, txn, entry).resolved(txn, d, ts);
            &&& r.inv()
            &&& forall|t: TxnId| c.resolvable(t) ==> #[trigger] r.resolvable(t)
            &&& r.pending_prepares.dom().len() + 1 == c.pending_prepares.dom().len()
        }),
{
    let ts = c.node(node).coordinating[txn].prepare_ts;
    let r = c.with_coord(node, txn, entry).resolved(txn, d, ts);
    assert(c.nodes[node as int].undecided(txn));
    assert(c.nodes[node as int].coordinating.contains_key(txn));
    assert(c.pending_prepares.contains_key(ts));
    assert(c.pending_prepares.dom().contains(ts));
    assert(r.pending_prepares.dom() =~= c.pending_prepares.dom().remove(ts));
    assert forall|i: int, t: TxnId| 0 <= i < c.nodes.len() implies #[trigger] r.nodes[i].undecided(t)
        == (c.nodes[i].undecided(t) && !(i == node && t == txn)) by {}
    assert forall|t: TxnId| c.resolvable(t) implies #[trigger] r.resolvable(t) by {
        if !c.decisions.contains_key(t) && t != txn {
            let i = choose|i: int| 0 <= i < c.nodes.len() && #[trigger] c.nodes[i].undecided(t);
            assert(r.nodes[i].undecided(t));
        }
    }
    assert(r.paired()) by {
        assert forall|i: int, t: TxnId| #[trigger]
            r.nodes[i].coordinating.contains_key(t) && 0 <= i < r.nodes.len() implies r.small_group(
            r.nodes[i].coordinating[t].participants,
        ) by {
            if !(i == node && t == txn) {
                assert(c.nodes[i].coordinating.contains_key(t));
                assert(r.nodes[i].coordinating[t] == c.nodes[i].coordinating[t]);
            }
        }
    }
    assert(r.finite()) by {
        assert forall|i: int| 0 <= i < r.nodes.len() implies (
        #[trigger] r.nodes[i]).coordinating.dom().finite() by {
            assert(c.nodes[i].coordinating.dom().finite());
            if i == node {
                assert(r.nodes[i].coordinating.dom() =~= c.nodes[i].coordinating.dom().insert(txn));
            }
        }
        assert forall|i: int, t: TxnId| #[trigger]
            r.nodes[i].coordinating.contains_key(t) && 0 <= i
                < r.nodes.len() implies r.nodes[i].coordinating[t].writes.dom().finite() by {
            if !(i == node && t == txn) {
                assert(c.nodes[i].coordinating.contains_key(t));
                assert(r.nodes[i].coordinating[t] == c.nodes[i].coordinating[t]);
            }
        }
    }
    assert(r.clocked()) by {
        assert forall|p: Ts| #[trigger] r.pending_prepares.contains_key(p) implies r.committed_floor
            < p < r.tso_next by {
            assert(c.pending_prepares.contains_key(p));
        }
        assert forall|i: int| 0 <= i < r.history.len() implies (#[trigger] r.history[i]).begin_ts
            <= r.committed_floor && r.history[i].begin_ts < r.history[i].commit_ts
            && r.history[i].commit_ts <= r.max_applied by {
            assert(c.history[i].begin_ts <= c.committed_floor);
        }
    }
    assert(r.unique_commits()) by {
        assert forall|i: int, j: int| 0 <= i < j < r.history.len() implies (
        #[trigger] r.history[i]).commit_ts != (#[trigger] r.history[j]).commit_ts by {
            assert(c.history[i].commit_ts != c.history[j].commit_ts);
        }
        assert forall|i: int| 0 <= i < r.history.len() implies !r.pending_prepares.contains_key(
            (#[trigger] r.history[i]).commit_ts,
        ) by {
            assert(!c.pending_prepares.contains_key(c.history[i].commit_ts));
        }
    }
    assert(r.held()) by {
        assert forall|i: int, t: TxnId|
            0 <= i < r.nodes.len() && #[trigger] r.nodes[i].undecided(t) implies {
            let s = r.nodes[i].coordinating[t];
            &&& r.pending_prepares.contains_key(s.prepare_ts)
            &&& r.pending_prepares[s.prepare_ts] == s.writes.dom()
            &&& s.begin_ts <= r.committed_floor
            &&& s.started_at <= r.now
        } by {
            assert(c.nodes[i].undecided(t));
            assert(r.nodes[i].coordinating[t] == c.nodes[i].coordinating[t]);
            if c.nodes[i].coordinating[t].prepare_ts == ts {
                assert(c.nodes[node as int].undecided(txn));
                assert(i == node && t == txn);
            }
        }
        assert forall|i: int, t: TxnId, j: int, u: TxnId|
            0 <= i < r.nodes.len() && 0 <= j < r.nodes.len() && #[trigger] r.nodes[i].undecided(t)
                && #[trigger] r.nodes[j].undecided(u) && r.nodes[i].coordinating[t].prepare_ts
                == r.nodes[j].coordinating[u].prepare_ts implies i == j && t == u by {
            assert(c.nodes[i].undecided(t) && c.nodes[j].undecided(u));
            assert(r.nodes[i].coordinating[t] == c.nodes[i].coordinating[t]);
            assert(r.nodes[j].coordinating[u] == c.nodes[j].coordinating[u]);
        }
    }
    assert(r.logged()) by {
        assert forall|i: int, t: TxnId|
            0 <= i < r.nodes.len() && #[trigger] r.nodes[i].coordinating.contains_key(t) implies t
            < r.next_txn && r.nodes[i].coordinating[t].decided == r.decisions.contains_key(t) by {
            if i == node && t == txn {
                assert(c.nodes[i].coordinating.contains_key(t));
            } else {
                assert(c.nodes[i].coordinating.contains_key(t));
                assert(r.nodes[i].coordinating[t] == c.nodes[i].coordinating[t]);
                if t == txn {
                    assert(c.nodes[node as int].coordinating.contains_key(t));
                }
            }
        }
        assert forall|t: TxnId| #[trigger] r.decisions.contains_key(t) implies t < r.next_txn by {
            if t != txn {
                assert(c.decisions.contains_key(t));
            }
        }
        assert forall|i: int, j: int, t: TxnId|
            0 <= i < r.nodes.len() && 0 <= j < r.nodes.len()
                && #[trigger] r.nodes[i].coordinating.contains_key(t)
                && #[trigger] r.nodes[j].coordinating.contains_key(t) implies i == j by {
            assert(c.nodes[i].coordinating.contains_key(t));
            assert(c.nodes[j].coordinating.contains_key(t));
        }
    }
    assert(r.intents_resolvable()) by {
        assert forall|i: int, t: TxnId|
            0 <= i < r.nodes.len() && #[trigger] r.nodes[i].prepared.contains_key(
                t,
            ) implies r.resolvable(t) by {
            assert(c.nodes[i].prepared.contains_key(t));
            assert(c.resolvable(t));
        }
    }
    assert(r.stored()) by {
        assert forall|k: Key|
            r.node(r.owner(k)).versions(k) == #[trigger] safety::timeline(r.history, k) by {
            assert(c.node(c.owner(k)).versions(k) == safety::timeline(c.history, k));
            assert(r.nodes[r.owner(k) as int].store == c.nodes[c.owner(k) as int].store);
        }
    }
    assert(r.serialized()) by {
        assert forall|i: int, k: Key, p: Ts|
            0 <= i < r.history.len() && #[trigger] r.history[i].reads.contains_key(k)
                && #[trigger] r.pending_prepares.contains_key(p) && r.history[i].begin_ts < p
                < r.history[i].commit_ts implies !r.pending_prepares[p].contains(k) by {
            assert(c.history[i].reads.contains_key(k) && c.pending_prepares.contains_key(p));
        }
        assert forall|i: int, k: Key, t: Ts|
            0 <= i < r.history.len() && #[trigger] r.history[i].reads.contains_key(k)
                && #[trigger] safety::timeline(r.history, k).contains_key(t) implies !(
        r.history[i].begin_ts < t < r.history[i].commit_ts) by {
            assert(c.history[i].reads.contains_key(k));
            assert(safety::timeline(c.history, k).contains_key(t));
        }
    }
    assert(r.snapshots()) by {
        assert forall|i: int, k: Key|
            0 <= i < r.history.len() && #[trigger] r.history[i].reads.contains_key(
                k,
            ) implies r.history[i].reads[k] == safety::seen_at(
            r.history,
            k,
            r.history[i].begin_ts,
        ) by {
            assert(c.history[i].reads.contains_key(k));
        }
        assert forall|i: int, t: TxnId, k: Key|
            0 <= i < r.nodes.len() && r.nodes[i].undecided(t)
                && #[trigger] r.nodes[i].coordinating[t].reads.contains_key(
                k,
            ) implies r.nodes[i].coordinating[t].reads[k] == safety::seen_at(
            r.history,
            k,
            r.nodes[i].coordinating[t].begin_ts,
        ) by {
            assert(c.nodes[i].undecided(t));
            assert(r.nodes[i].coordinating[t] == c.nodes[i].coordinating[t]);
            assert(c.nodes[i].coordinating[t].reads.contains_key(k));
        }
    }
    assert(r.monotonic()) by {
        assert forall|i: int| 0 <= i < r.frontier_samples.len() implies (
        #[trigger] r.frontier_samples[i]).0 < r.num_partitions && r.frontier_samples[i].2 <= r.node(
            r.frontier_samples[i].0,
        ).frontier_of(r.frontier_samples[i].1) by {
            let x = c.frontier_samples[i];
            assert(x.0 < c.num_partitions);
            assert(r.nodes[x.0 as int].frontier == c.nodes[x.0 as int].frontier);
        }
        assert(r.floor_samples == c.floor_samples);
    }
    assert(r.watched_over()) by {
        assert forall|i: int| 0 <= i < r.nodes.len() implies (#[trigger] r.nodes[i]).cursor
            <= r.commit_log.len() by {
            assert(c.nodes[i].cursor <= c.commit_log.len());
        }
        assert forall|s: int, e: int|
            0 <= s < r.subs.len() && 0 <= e < r.commit_log.len() implies #[trigger] r.covered(
            s,
            e,
        ) by {
            assert(c.covered(s, e));
            assert(c.subs[s].node < c.num_partitions);
            assert(r.nodes[c.subs[s].node as int].cursor == c.nodes[c.subs[s].node as int].cursor);
        }
        assert forall|i: int, k: Key|
            0 <= i < r.history.len() && #[trigger] r.history[i].writes.contains_key(
                k,
            ) implies r.in_log(r.history[i].commit_ts, k) by {
            assert(c.history[i].writes.contains_key(k));
            assert(c.in_log(c.history[i].commit_ts, k));
        }
    }
}

/// A later commit does not change what a snapshot shows.
pub proof fn lemma_seen_stable(history: Seq<TxnState>, t: TxnState, key: Key, ts: Ts)
    requires
        t.commit_ts > ts,
    ensures
        safety::seen_at(history.push(t), key, ts) == safety::seen_at(history, key, ts),
{
    let h = history.push(t);
    assert(h.drop_last() =~= history);
    assert(state::up_to(safety::timeline(h, key), ts) =~= state::up_to(
        safety::timeline(history, key),
        ts,
    ));
}

/// A commit at a timestamp that nothing has used, above the floor, whose reads
/// still validate and which nobody has read around, keeps the invariant.
#[verifier::rlimit(40)]
pub proof fn lemma_landed(
    c: ClusterState,
    begin_ts: Ts,
    ts: Ts,
    reads: Map<Key, Value>,
    writes: Map<Key, Value>,
)
    requires
        c.inv(),
        !c.pending_prepares.contains_key(ts),
        c.committed_floor < ts < c.tso_next,
        begin_ts <= c.committed_floor,
        writes.dom().finite(),
        forall|j: int| 0 <= j < c.history.len() ==> (#[trigger] c.history[j]).commit_ts != ts,
        forall|j: int, k: Key|
            0 <= j < c.history.len() && #[trigger] c.history[j].reads.contains_key(k)
                && c.history[j].begin_ts < ts < c.history[j].commit_ts ==> !writes.contains_key(k),
        forall|k: Key| #[trigger]
            reads.contains_key(k) ==> reads[k] == safety::seen_at(c.history, k, begin_ts),
        forall|k: Key, t: Ts| #[trigger]
            reads.contains_key(k) && #[trigger] safety::timeline(c.history, k).contains_key(t)
                ==> t <= begin_ts,
        forall|k: Key, p: Ts| #[trigger]
            reads.contains_key(k) && #[trigger] c.pending_prepares.contains_key(p) && p < ts
                ==> !c.pending_prepares[p].contains(k),
        c.next_txn_record + c.pending_prepares.dom().len() < c.tso_next,
    ensures
        c.landed(ts, writes).recorded(begin_ts, ts, reads, writes).inv(),
        forall|t: TxnId|
            c.resolvable(t) ==> #[trigger] c.landed(ts, writes).recorded(
                begin_ts,
                ts,
                reads,
                writes,
            ).resolvable(t),
{
    let n = c.num_partitions;
    let r = c.landed(ts, writes).recorded(begin_ts, ts, reads, writes);
    let x = TxnState { id: c.next_txn_record, begin_ts, commit_ts: ts, reads, writes };
    assert(r.history == c.history.push(x));
    assert(r.history.drop_last() =~= c.history);
    assert forall|i: int| 0 <= i < c.nodes.len() implies {
        let (a, b) = (#[trigger] r.nodes[i], c.nodes[i]);
        &&& a == c.node_applied(i as NodeId, ts, writes)
        &&& a.frontier == b.frontier
        &&& a.prepared == b.prepared
        &&& a.coordinating == b.coordinating
        &&& a.cursor == b.cursor
        &&& a.up == b.up
    } by {}
    assert forall|i: int, t: TxnId| 0 <= i < c.nodes.len() implies #[trigger] r.nodes[i].undecided(t)
        == c.nodes[i].undecided(t) by {}
    assert forall|t: TxnId| c.resolvable(t) implies #[trigger] r.resolvable(t) by {
        if !c.decisions.contains_key(t) {
            let i = choose|i: int| 0 <= i < c.nodes.len() && #[trigger] c.nodes[i].undecided(t);
            assert(r.nodes[i].undecided(t));
        }
    }
    assert forall|k: Key| #[trigger] safety::timeline(r.history, k) == (if writes.contains_key(k) {
        safety::timeline(c.history, k).insert(ts, writes[k])
    } else {
        safety::timeline(c.history, k)
    }) by {}
    assert(r.paired()) by {
        assert forall|i: int, t: TxnId| #[trigger]
            r.nodes[i].coordinating.contains_key(t) && 0 <= i < r.nodes.len() implies r.small_group(
            r.nodes[i].coordinating[t].participants,
        ) by {
            assert(c.nodes[i].coordinating.contains_key(t));
        }
    }
    assert(r.finite()) by {
        assert forall|i: int, t: TxnId| #[trigger]
            r.nodes[i].coordinating.contains_key(t) && 0 <= i
                < r.nodes.len() implies r.nodes[i].coordinating[t].writes.dom().finite() by {
            assert(c.nodes[i].coordinating.contains_key(t));
        }
    }
    assert(r.clocked()) by {
        assert forall|i: int| 0 <= i < r.history.len() implies (#[trigger] r.history[i]).begin_ts
            <= r.committed_floor && r.history[i].begin_ts < r.history[i].commit_ts
            && r.history[i].commit_ts <= r.max_applied by {
            if i < c.history.len() {
                assert(r.history[i] == c.history[i]);
            }
        }
        assert forall|p: Ts| #[trigger] r.pending_prepares.contains_key(p) implies r.committed_floor
            < p < r.tso_next by {
            assert(c.pending_prepares.contains_key(p));
        }
    }
    assert(r.unique_commits()) by {
        assert forall|i: int, j: int| 0 <= i < j < r.history.len() implies (
        #[trigger] r.history[i]).commit_ts != (#[trigger] r.history[j]).commit_ts by {
            assert(r.history[i] == c.history[i]);
            if j < c.history.len() {
                assert(r.history[j] == c.history[j]);
            }
        }
        assert forall|i: int| 0 <= i < r.history.len() implies !r.pending_prepares.contains_key(
            (#[trigger] r.history[i]).commit_ts,
        ) by {
            if i < c.history.len() {
                assert(r.history[i] == c.history[i]);
            }
        }
    }
    assert(r.held()) by {
        assert forall|i: int, t: TxnId|
            0 <= i < r.nodes.len() && #[trigger] r.nodes[i].undecided(t) implies {
            let s = r.nodes[i].coordinating[t];
            &&& r.pending_prepares.contains_key(s.prepare_ts)
            &&& r.pending_prepares[s.prepare_ts] == s.writes.dom()
            &&& s.begin_ts <= r.committed_floor
            &&& s.started_at <= r.now
        } by {
            assert(c.nodes[i].undecided(t));
        }
        assert forall|i: int, t: TxnId, j: int, u: TxnId|
            0 <= i < r.nodes.len() && 0 <= j < r.nodes.len() && #[trigger] r.nodes[i].undecided(t)
                && #[trigger] r.nodes[j].undecided(u) && r.nodes[i].coordinating[t].prepare_ts
                == r.nodes[j].coordinating[u].prepare_ts implies i == j && t == u by {
            assert(c.nodes[i].undecided(t) && c.nodes[j].undecided(u));
        }
    }
    assert(r.logged()) by {
        assert forall|i: int, t: TxnId|
            0 <= i < r.nodes.len() && #[trigger] r.nodes[i].coordinating.contains_key(t) implies t
            < r.next_txn && r.nodes[i].coordinating[t].decided == r.decisions.contains_key(t) by {
            assert(c.nodes[i].coordinating.contains_key(t));
        }
        assert forall|i: int, j: int, t: TxnId|
            0 <= i < r.nodes.len() && 0 <= j < r.nodes.len()
                && #[trigger] r.nodes[i].coordinating.contains_key(t)
                && #[trigger] r.nodes[j].coordinating.contains_key(t) implies i == j by {
            assert(c.nodes[i].coordinating.contains_key(t));
            assert(c.nodes[j].coordinating.contains_key(t));
        }
    }
    assert(r.intents_resolvable()) by {
        assert forall|i: int, t: TxnId|
            0 <= i < r.nodes.len() && #[trigger] r.nodes[i].prepared.contains_key(
                t,
            ) implies r.resolvable(t) by {
            assert(c.nodes[i].prepared.contains_key(t));
            assert(c.resolvable(t));
        }
    }
    assert(r.stored()) by {
        assert forall|k: Key|
            r.node(r.owner(k)).versions(k) == #[trigger] safety::timeline(r.history, k) by {
            let o = c.owner(k);
            assert(c.node(o).versions(k) == safety::timeline(c.history, k));
            assert(r.nodes[o as int] == c.node_applied(o, ts, writes));
        }
    }
    assert(r.serialized()) by {
        assert forall|i: int, k: Key, t: Ts|
            0 <= i < r.history.len() && #[trigger] r.history[i].reads.contains_key(k)
                && #[trigger] safety::timeline(r.history, k).contains_key(t) implies !(
        r.history[i].begin_ts < t < r.history[i].commit_ts) by {
            if i < c.history.len() {
                assert(r.history[i] == c.history[i]);
                assert(c.history[i].reads.contains_key(k));
                if safety::timeline(c.history, k).contains_key(t) {
                } else {
                    assert(t == ts && writes.contains_key(k));
                }
            } else {
                if t != ts {
                    assert(safety::timeline(c.history, k).contains_key(t));
                }
            }
        }
        assert forall|i: int, k: Key, p: Ts|
            0 <= i < r.history.len() && #[trigger] r.history[i].reads.contains_key(k)
                && #[trigger] r.pending_prepares.contains_key(p) && r.history[i].begin_ts < p
                < r.history[i].commit_ts implies !r.pending_prepares[p].contains(k) by {
            assert(c.pending_prepares.contains_key(p));
            if i < c.history.len() {
                assert(r.history[i] == c.history[i]);
                assert(c.history[i].reads.contains_key(k));
            } else {
                assert(reads.contains_key(k));
            }
        }
    }
    assert(r.snapshots()) by {
        assert forall|i: int, k: Key|
            0 <= i < r.history.len() && #[trigger] r.history[i].reads.contains_key(
                k,
            ) implies r.history[i].reads[k] == safety::seen_at(
            r.history,
            k,
            r.history[i].begin_ts,
        ) by {
            if i < c.history.len() {
                assert(r.history[i] == c.history[i]);
                assert(c.history[i].reads.contains_key(k));
                lemma_seen_stable(c.history, x, k, c.history[i].begin_ts);
            } else {
                assert(reads.contains_key(k));
                lemma_seen_stable(c.history, x, k, begin_ts);
            }
        }
        assert forall|i: int, t: TxnId, k: Key|
            0 <= i < r.nodes.len() && r.nodes[i].undecided(t)
                && #[trigger] r.nodes[i].coordinating[t].reads.contains_key(
                k,
            ) implies r.nodes[i].coordinating[t].reads[k] == safety::seen_at(
            r.history,
            k,
            r.nodes[i].coordinating[t].begin_ts,
        ) by {
            assert(c.nodes[i].undecided(t));
            assert(c.nodes[i].coordinating[t].reads.contains_key(k));
            lemma_seen_stable(c.history, x, k, c.nodes[i].coordinating[t].begin_ts);
        }
    }
    assert(r.monotonic()) by {
        assert forall|i: int| 0 <= i < r.frontier_samples.len() implies (
        #[trigger] r.frontier_samples[i]).0 < r.num_partitions && r.frontier_samples[i].2 <= r.node(
            r.frontier_samples[i].0,
        ).frontier_of(r.frontier_samples[i].1) by {
            let y = c.frontier_samples[i];
            assert(y.0 < c.num_partitions);
            assert(r.nodes[y.0 as int].frontier == c.nodes[y.0 as int].frontier);
        }
        assert(r.floor_samples == c.floor_samples);
    }
    assert(r.watched_over()) by {
        lemma_landed_watch(c, begin_ts, ts, reads, writes);
    }
}

/// The watching part of [`lemma_landed`].
proof fn lemma_landed_watch(
    c: ClusterState,
    begin_ts: Ts,
    ts: Ts,
    reads: Map<Key, Value>,
    writes: Map<Key, Value>,
)
    requires
        c.inv(),
        writes.dom().finite(),
    ensures
        c.landed(ts, writes).recorded(begin_ts, ts, reads, writes).watched_over(),
{
    let n = c.num_partitions;
    let r = c.landed(ts, writes).recorded(begin_ts, ts, reads, writes);
    let owners = state::owners(n, writes.dom());
    let q = ordered::ascending_u32(owners);
    let base = c.commit_log.len() as int;
    crate::model::lemma_owners_len(n, writes.dom());
    ordered::lemma_ascending_u32(owners);
    assert forall|i: int| 0 <= i < r.nodes.len() implies (#[trigger] r.nodes[i]).cursor
        <= r.commit_log.len() by {
        assert(c.nodes[i].cursor <= c.commit_log.len());
        assert(r.nodes[i].cursor == c.nodes[i].cursor);
    }
    assert forall|s: int| 0 <= s < r.subs.len() implies (#[trigger] r.subs[s]).node
        < r.num_partitions by {
        assert(c.subs[s].node < c.num_partitions);
        assert(r.subs[s].node == c.subs[s].node);
    }
    assert forall|s: int, e: int|
        0 <= s < r.subs.len() && 0 <= e < r.commit_log.len() implies #[trigger] r.covered(s, e) by {
        let sub = c.subs[s];
        assert(sub.node < c.num_partitions);
        assert(r.nodes[sub.node as int].cursor == c.nodes[sub.node as int].cursor);
        assert(c.nodes[sub.node as int].cursor <= base);
        if e < base {
            assert(c.covered(s, e));
            assert(r.commit_log[e] == c.commit_log[e]);
        } else {
            let o = q[e - base];
            assert(r.commit_log[e] == EntryState {
                source: o,
                ts,
                writes: state::slice(n, writes, o),
            });
        }
    }
    assert forall|i: int, k: Key|
        0 <= i < r.history.len() && #[trigger] r.history[i].writes.contains_key(
            k,
        ) implies r.in_log(r.history[i].commit_ts, k) by {
        if i < c.history.len() {
            assert(r.history[i] == c.history[i]);
            assert(c.history[i].writes.contains_key(k));
            assert(c.in_log(c.history[i].commit_ts, k));
            let e = choose|e: int|
                0 <= e < c.commit_log.len() && (#[trigger] c.commit_log[e]).ts
                    == c.history[i].commit_ts && state::writes_key(c.commit_log[e].writes, k);
            assert(r.commit_log[e] == c.commit_log[e]);
        } else {
            let o = state::owner_among(n, k);
            assert(writes.dom().contains(k));
            assert(owners.contains(o));
            assert(q.to_set().contains(o));
            let j = choose|j: int| 0 <= j < q.len() && q[j] == o;
            assert(r.commit_log[base + j] == EntryState {
                source: o,
                ts,
                writes: state::slice(n, writes, o),
            });
            crate::model::lemma_slice(n, writes, o);
            assert(state::writes_key(state::slice(n, writes, o), k));
        }
    }
}

/// The oracle hands out one timestamp, for at most two written values.
pub proof fn lemma_allocated(c: ClusterState, values: nat, r: ClusterState)
    requires
        c.inv(),
        r == (ClusterState { next_value: (c.next_value + values) as u64, ..c.allocated() }),
        c.tso_next < u64::MAX,
        values <= 2,
        c.next_value + values <= u64::MAX,
    ensures
        c.next_ts() == c.tso_next,
        r.inv(),
        forall|t: TxnId| c.resolvable(t) ==> #[trigger] r.resolvable(t),
{
    assert forall|t: TxnId| c.resolvable(t) implies #[trigger] r.resolvable(t) by {
        if !c.decisions.contains_key(t) {
            let i = choose|i: int| 0 <= i < c.nodes.len() && #[trigger] c.nodes[i].undecided(t);
            assert(r.nodes[i].undecided(t));
        }
    }
    assert(r.clocked()) by {
        assert forall|p: Ts| #[trigger] r.pending_prepares.contains_key(p) implies r.committed_floor
            < p < r.tso_next by {
            assert(c.pending_prepares.contains_key(p));
        }
    }
    assert(r.held());
    assert(r.stored());
    assert(r.intents_resolvable()) by {
        assert forall|i: int, t: TxnId|
            0 <= i < r.nodes.len() && #[trigger] r.nodes[i].prepared.contains_key(
                t,
            ) implies r.resolvable(t) by {
            assert(c.nodes[i].prepared.contains_key(t));
            assert(c.resolvable(t));
        }
    }
    assert(r.watched_over()) by {
        assert forall|s: int, e: int|
            0 <= s < r.subs.len() && 0 <= e < r.commit_log.len() implies #[trigger] r.covered(
            s,
            e,
        ) by {
            assert(c.covered(s, e));
        }
        assert forall|i: int, k: Key|
            0 <= i < r.history.len() && #[trigger] r.history[i].writes.contains_key(
                k,
            ) implies r.in_log(r.history[i].commit_ts, k) by {
            assert(c.history[i].writes.contains_key(k));
            assert(c.in_log(c.history[i].commit_ts, k));
            let e = choose|e: int|
                0 <= e < c.commit_log.len() && (#[trigger] c.commit_log[e]).ts
                    == c.history[i].commit_ts && state::writes_key(c.commit_log[e].writes, k);
            assert(r.commit_log[e].ts == r.history[i].commit_ts);
        }
    }
}

/// A two-phase transaction starts: a fresh transaction id, the next timestamp,
/// a hold on the floor.
#[verifier::rlimit(40)]
pub proof fn lemma_begun(
    c: ClusterState,
    coordinator: NodeId,
    entry: CoordState,
    values: nat,
    r: ClusterState,
)
    requires
        c.inv(),
        coordinator < c.num_partitions,
        c.tso_next < u64::MAX,
        c.next_txn < u64::MAX,
        values <= 2,
        c.next_value + values <= u64::MAX,
        entry.prepare_ts == c.tso_next,
        entry.begin_ts <= c.committed_floor,
        entry.started_at == c.now,
        !entry.decided,
        c.small_group(entry.participants),
        entry.writes.dom().finite(),
        forall|k: Key| #[trigger]
            entry.reads.contains_key(k) ==> entry.reads[k] == safety::seen_at(
                c.history,
                k,
                entry.begin_ts,
            ),
        r == (ClusterState {
            next_txn: (c.next_txn + 1) as u64,
            tso_next: (c.tso_next + 1) as u64,
            pending_prepares: c.pending_prepares.insert(c.tso_next, entry.writes.dom()),
            next_value: (c.next_value + values) as u64,
            trace: r.trace,
            ..c
        }).with_coord(coordinator, c.next_txn, entry),
    ensures
        r.inv(),
        forall|t: TxnId| c.resolvable(t) ==> #[trigger] r.resolvable(t),
        r.resolvable(c.next_txn),
        r.pending_prepares.dom().len() == c.pending_prepares.dom().len() + 1,
{
    let txn = c.next_txn;
    let ts = c.tso_next;
    let ci = coordinator as int;
    assert(!c.nodes[ci].coordinating.contains_key(txn)) by {
        if c.nodes[ci].coordinating.contains_key(txn) {
            assert(txn < c.next_txn);
        }
    }
    assert(!c.pending_prepares.contains_key(ts)) by {
        if c.pending_prepares.contains_key(ts) {
            assert(ts < c.tso_next);
        }
    }
    assert(!c.pending_prepares.dom().contains(ts));
    assert(r.pending_prepares.dom() =~= c.pending_prepares.dom().insert(ts));
    assert forall|i: int, t: TxnId| 0 <= i < c.nodes.len() implies #[trigger] r.nodes[i].undecided(t)
        == (c.nodes[i].undecided(t) || (i == ci && t == txn)) by {}
    assert forall|t: TxnId| c.resolvable(t) implies #[trigger] r.resolvable(t) by {
        if !c.decisions.contains_key(t) {
            let i = choose|i: int| 0 <= i < c.nodes.len() && #[trigger] c.nodes[i].undecided(t);
            assert(r.nodes[i].undecided(t));
        }
    }
    assert(r.nodes[ci].undecided(txn));
    assert forall|i: int, t: TxnId|
        0 <= i < c.nodes.len() && !(i == ci && t == txn) implies #[trigger]
        r.nodes[i].coordinating.contains_key(t) == c.nodes[i].coordinating.contains_key(t) && (
    c.nodes[i].coordinating.contains_key(t) ==> r.nodes[i].coordinating[t]
        == c.nodes[i].coordinating[t]) by {}
    assert(r.paired()) by {
        assert forall|i: int, t: TxnId| #[trigger]
            r.nodes[i].coordinating.contains_key(t) && 0 <= i < r.nodes.len() implies r.small_group(
            r.nodes[i].coordinating[t].participants,
        ) by {
            if !(i == ci && t == txn) {
                assert(c.nodes[i].coordinating.contains_key(t));
            }
        }
    }
    assert(r.finite()) by {
        assert forall|i: int| 0 <= i < r.nodes.len() implies (
        #[trigger] r.nodes[i]).coordinating.dom().finite() by {
            assert(c.nodes[i].coordinating.dom().finite());
            if i == ci {
                assert(r.nodes[i].coordinating.dom() =~= c.nodes[i].coordinating.dom().insert(txn));
            }
        }
        assert forall|i: int, t: TxnId| #[trigger]
            r.nodes[i].coordinating.contains_key(t) && 0 <= i
                < r.nodes.len() implies r.nodes[i].coordinating[t].writes.dom().finite() by {
            if !(i == ci && t == txn) {
                assert(c.nodes[i].coordinating.contains_key(t));
            }
        }
    }
    assert(r.clocked()) by {
        assert forall|p: Ts| #[trigger] r.pending_prepares.contains_key(p) implies r.committed_floor
            < p < r.tso_next by {
            if p != ts {
                assert(c.pending_prepares.contains_key(p));
            }
        }
        assert forall|i: int| 0 <= i < r.history.len() implies (#[trigger] r.history[i]).begin_ts
            <= r.committed_floor && r.history[i].begin_ts < r.history[i].commit_ts
            && r.history[i].commit_ts <= r.max_applied by {
            assert(c.history[i].begin_ts <= c.committed_floor);
        }
    }
    assert(r.unique_commits()) by {
        assert forall|i: int, j: int| 0 <= i < j < r.history.len() implies (
        #[trigger] r.history[i]).commit_ts != (#[trigger] r.history[j]).commit_ts by {
            assert(c.history[i].commit_ts != c.history[j].commit_ts);
        }
        assert forall|i: int| 0 <= i < r.history.len() implies !r.pending_prepares.contains_key(
            (#[trigger] r.history[i]).commit_ts,
        ) by {
            assert(c.history[i].commit_ts <= c.max_applied);
            assert(!c.pending_prepares.contains_key(c.history[i].commit_ts));
        }
    }
    assert(r.held()) by {
        assert forall|i: int, t: TxnId|
            0 <= i < r.nodes.len() && #[trigger] r.nodes[i].undecided(t) implies {
            let s = r.nodes[i].coordinating[t];
            &&& r.pending_prepares.contains_key(s.prepare_ts)
            &&& r.pending_prepares[s.prepare_ts] == s.writes.dom()
            &&& s.begin_ts <= r.committed_floor
            &&& s.started_at <= r.now
        } by {
            if !(i == ci && t == txn) {
                assert(c.nodes[i].undecided(t));
                assert(r.nodes[i].coordinating[t] == c.nodes[i].coordinating[t]);
            }
        }
        assert forall|i: int, t: TxnId, j: int, u: TxnId|
            0 <= i < r.nodes.len() && 0 <= j < r.nodes.len() && #[trigger] r.nodes[i].undecided(t)
                && #[trigger] r.nodes[j].undecided(u) && r.nodes[i].coordinating[t].prepare_ts
                == r.nodes[j].coordinating[u].prepare_ts implies i == j && t == u by {
            let a = (i == ci && t == txn);
            let b = (j == ci && u == txn);
            if !a {
                assert(c.nodes[i].undecided(t));
                assert(r.nodes[i].coordinating[t] == c.nodes[i].coordinating[t]);
                assert(c.pending_prepares.contains_key(c.nodes[i].coordinating[t].prepare_ts));
            }
            if !b {
                assert(c.nodes[j].undecided(u));
                assert(r.nodes[j].coordinating[u] == c.nodes[j].coordinating[u]);
                assert(c.pending_prepares.contains_key(c.nodes[j].coordinating[u].prepare_ts));
            }
        }
    }
    assert(r.logged()) by {
        assert forall|i: int, t: TxnId|
            0 <= i < r.nodes.len() && #[trigger] r.nodes[i].coordinating.contains_key(t) implies t
            < r.next_txn && r.nodes[i].coordinating[t].decided == r.decisions.contains_key(t) by {
            if !(i == ci && t == txn) {
                assert(c.nodes[i].coordinating.contains_key(t));
            } else {
                if c.decisions.contains_key(txn) {
                    assert(txn < c.next_txn);
                }
            }
        }
        assert forall|t: TxnId| #[trigger] r.decisions.contains_key(t) implies t < r.next_txn by {
            assert(c.decisions.contains_key(t));
        }
        assert forall|i: int, j: int, t: TxnId|
            0 <= i < r.nodes.len() && 0 <= j < r.nodes.len()
                && #[trigger] r.nodes[i].coordinating.contains_key(t)
                && #[trigger] r.nodes[j].coordinating.contains_key(t) implies i == j by {
            if t == txn {
                if i != ci {
                    assert(c.nodes[i].coordinating.contains_key(t));
                }
                if j != ci {
                    assert(c.nodes[j].coordinating.contains_key(t));
                }
            } else {
                assert(c.nodes[i].coordinating.contains_key(t));
                assert(c.nodes[j].coordinating.contains_key(t));
            }
        }
    }
    assert(r.intents_resolvable()) by {
        assert forall|i: int, t: TxnId|
            0 <= i < r.nodes.len() && #[trigger] r.nodes[i].prepared.contains_key(
                t,
            ) implies r.resolvable(t) by {
            assert(c.nodes[i].prepared.contains_key(t));
            assert(c.resolvable(t));
        }
    }
    assert(r.stored()) by {
        assert forall|k: Key|
            r.node(r.owner(k)).versions(k) == #[trigger] safety::timeline(r.history, k) by {
            assert(c.node(c.owner(k)).versions(k) == safety::timeline(c.history, k));
            assert(r.nodes[r.owner(k) as int].store == c.nodes[c.owner(k) as int].store);
        }
    }
    assert(r.serialized()) by {
        assert forall|i: int, k: Key, p: Ts|
            0 <= i < r.history.len() && #[trigger] r.history[i].reads.contains_key(k)
                && #[trigger] r.pending_prepares.contains_key(p) && r.history[i].begin_ts < p
                < r.history[i].commit_ts implies !r.pending_prepares[p].contains(k) by {
            assert(c.history[i].commit_ts <= c.max_applied);
            assert(c.history[i].reads.contains_key(k) && c.pending_prepares.contains_key(p));
        }
        assert forall|i: int, k: Key, t: Ts|
            0 <= i < r.history.len() && #[trigger] r.history[i].reads.contains_key(k)
                && #[trigger] safety::timeline(r.history, k).contains_key(t) implies !(
        r.history[i].begin_ts < t < r.history[i].commit_ts) by {
            assert(c.history[i].reads.contains_key(k));
            assert(safety::timeline(c.history, k).contains_key(t));
        }
    }
    assert(r.snapshots()) by {
        assert forall|i: int, k: Key|
            0 <= i < r.history.len() && #[trigger] r.history[i].reads.contains_key(
                k,
            ) implies r.history[i].reads[k] == safety::seen_at(
            r.history,
            k,
            r.history[i].begin_ts,
        ) by {
            assert(c.history[i].reads.contains_key(k));
        }
        assert forall|i: int, t: TxnId, k: Key|
            0 <= i < r.nodes.len() && r.nodes[i].undecided(t)
                && #[trigger] r.nodes[i].coordinating[t].reads.contains_key(
                k,
            ) implies r.nodes[i].coordinating[t].reads[k] == safety::seen_at(
            r.history,
            k,
            r.nodes[i].coordinating[t].begin_ts,
        ) by {
            if !(i == ci && t == txn) {
                assert(c.nodes[i].undecided(t));
                assert(r.nodes[i].coordinating[t] == c.nodes[i].coordinating[t]);
                assert(c.nodes[i].coordinating[t].reads.contains_key(k));
            } else {
                assert(entry.reads.contains_key(k));
            }
        }
    }
    assert(r.monotonic()) by {
        assert forall|i: int| 0 <= i < r.frontier_samples.len() implies (
        #[trigger] r.frontier_samples[i]).0 < r.num_partitions && r.frontier_samples[i].2 <= r.node(
            r.frontier_samples[i].0,
        ).frontier_of(r.frontier_samples[i].1) by {
            let x = c.frontier_samples[i];
            assert(x.0 < c.num_partitions);
            assert(r.nodes[x.0 as int].frontier == c.nodes[x.0 as int].frontier);
        }
        assert(r.floor_samples == c.floor_samples);
    }
    assert(r.watched_over()) by {
        lemma_same_watch(c, r);
    }
}

/// The watching part depends on the log, the history, the subscriptions and the
/// cursors only.
proof fn lemma_same_watch(c: ClusterState, r: ClusterState)
    requires
        c.shaped(),
        c.watched_over(),
        r.num_partitions == c.num_partitions,
        r.nodes.len() == c.nodes.len(),
        r.commit_log == c.commit_log,
        r.history == c.history,
        r.subs == c.subs,
        forall|i: int| 0 <= i < c.nodes.len() ==> (#[trigger] r.nodes[i]).cursor == c.nodes[i].cursor,
    ensures
        r.watched_over(),
{
    assert forall|s: int, e: int|
        0 <= s < r.subs.len() && 0 <= e < r.commit_log.len() implies #[trigger] r.covered(s, e) by {
        assert(c.covered(s, e));
        assert(c.subs[s].node < c.num_partitions);
        assert(r.nodes[c.subs[s].node as int].cursor == c.nodes[c.subs[s].node as int].cursor);
    }
    assert forall|i: int, k: Key|
        0 <= i < r.history.len() && #[trigger] r.history[i].writes.contains_key(
            k,
        ) implies r.in_log(r.history[i].commit_ts, k) by {
        assert(c.history[i].writes.contains_key(k));
        assert(c.in_log(c.history[i].commit_ts, k));
        let e = choose|e: int|
            0 <= e < c.commit_log.len() && (#[trigger] c.commit_log[e]).ts
                == c.history[i].commit_ts && state::writes_key(c.commit_log[e].writes, k);
        assert(r.commit_log[e].ts == r.history[i].commit_ts);
    }
}

/// The coordinator notes a verdict.
pub proof fn lemma_noted(
    c: ClusterState,
    node: NodeId,
    txn: TxnId,
    ok: Set<NodeId>,
    bad: Set<NodeId>,
)
    requires
        c.inv(),
        node < c.num_partitions,
        c.node(node).coordinating.contains_key(txn),
    ensures
        ({
            let r = c.with_coord(
                node,
                txn,
                CoordState {
                    replies_ok: ok,
                    replies_bad: bad,
                    ..c.node(node).coordinating[txn]
                },
            );
            &&& r.inv()
            &&& forall|t: TxnId| c.resolvable(t) ==> #[trigger] r.resolvable(t)
        }),
{
    let old_entry = c.node(node).coordinating[txn];
    let entry = CoordState { replies_ok: ok, replies_bad: bad, ..old_entry };
    let r = c.with_coord(node, txn, entry);
    let ni = node as int;
    assert(c.nodes[ni].coordinating.contains_key(txn));
    assert forall|i: int, t: TxnId| 0 <= i < c.nodes.len() implies #[trigger] r.nodes[i].undecided(t)
        == c.nodes[i].undecided(t) by {}
    assert forall|i: int, t: TxnId| 0 <= i < c.nodes.len() implies #[trigger]
        r.nodes[i].coordinating.contains_key(t) == c.nodes[i].coordinating.contains_key(t) && (
    c.nodes[i].coordinating.contains_key(t) ==> r.nodes[i].coordinating[t] == (CoordState {
        replies_ok: r.nodes[i].coordinating[t].replies_ok,
        replies_bad: r.nodes[i].coordinating[t].replies_bad,
        ..c.nodes[i].coordinating[t]
    })) by {}
    assert forall|t: TxnId| c.resolvable(t) implies #[trigger] r.resolvable(t) by {
        if !c.decisions.contains_key(t) {
            let i = choose|i: int| 0 <= i < c.nodes.len() && #[trigger] c.nodes[i].undecided(t);
            assert(r.nodes[i].undecided(t));
        }
    }
    assert(r.paired()) by {
        assert forall|i: int, t: TxnId| #[trigger]
            r.nodes[i].coordinating.contains_key(t) && 0 <= i < r.nodes.len() implies r.small_group(
            r.nodes[i].coordinating[t].participants,
        ) by {
            assert(c.nodes[i].coordinating.contains_key(t));
        }
    }
    assert(r.finite()) by {
        assert forall|i: int| 0 <= i < r.nodes.len() implies (
        #[trigger] r.nodes[i]).coordinating.dom().finite() by {
            assert(c.nodes[i].coordinating.dom().finite());
            assert(r.nodes[i].coordinating.dom() =~= c.nodes[i].coordinating.dom());
        }
        assert forall|i: int, t: TxnId| #[trigger]
            r.nodes[i].coordinating.contains_key(t) && 0 <= i
                < r.nodes.len() implies r.nodes[i].coordinating[t].writes.dom().finite() by {
            assert(c.nodes[i].coordinating.contains_key(t));
        }
    }
    assert(r.held()) by {
        assert forall|i: int, t: TxnId|
            0 <= i < r.nodes.len() && #[trigger] r.nodes[i].undecided(t) implies {
            let s = r.nodes[i].coordinating[t];
            &&& r.pending_prepares.contains_key(s.prepare_ts)
            &&& r.pending_prepares[s.prepare_ts] == s.writes.dom()
            &&& s.begin_ts <= r.committed_floor
            &&& s.started_at <= r.now
        } by {
            assert(c.nodes[i].undecided(t));
            assert(c.nodes[i].coordinating.contains_key(t));
            assert(r.nodes[i].coordinating.contains_key(t));
        }
        assert forall|i: int, t: TxnId, j: int, u: TxnId|
            0 <= i < r.nodes.len() && 0 <= j < r.nodes.len() && #[trigger] r.nodes[i].undecided(t)
                && #[trigger] r.nodes[j].undecided(u) && r.nodes[i].coordinating[t].prepare_ts
                == r.nodes[j].coordinating[u].prepare_ts implies i == j && t == u by {
            assert(c.nodes[i].undecided(t) && c.nodes[j].undecided(u));
            assert(r.nodes[i].coordinating.contains_key(t));
            assert(r.nodes[j].coordinating.contains_key(u));
        }
    }
    assert(r.logged()) by {
        assert forall|i: int, t: TxnId|
            0 <= i < r.nodes.len() && #[trigger] r.nodes[i].coordinating.contains_key(t) implies t
            < r.next_txn && r.nodes[i].coordinating[t].decided == r.decisions.contains_key(t) by {
            assert(c.nodes[i].coordinating.contains_key(t));
        }
        assert forall|i: int, j: int, t: TxnId|
            0 <= i < r.nodes.len() && 0 <= j < r.nodes.len()
                && #[trigger] r.nodes[i].coordinating.contains_key(t)
                && #[trigger] r.nodes[j].coordinating.contains_key(t) implies i == j by {
            assert(c.nodes[i].coordinating.contains_key(t));
            assert(c.nodes[j].coordinating.contains_key(t));
        }
    }
    assert(r.intents_resolvable()) by {
        assert forall|i: int, t: TxnId|
            0 <= i < r.nodes.len() && #[trigger] r.nodes[i].prepared.contains_key(
                t,
            ) implies r.resolvable(t) by {
            assert(c.nodes[i].prepared.contains_key(t));
            assert(c.resolvable(t));
        }
    }
    assert(r.stored()) by {
        assert forall|k: Key|
            r.node(r.owner(k)).versions(k) == #[trigger] safety::timeline(r.history, k) by {
            assert(c.node(c.owner(k)).versions(k) == safety::timeline(c.history, k));
            assert(r.nodes[r.owner(k) as int].store == c.nodes[c.owner(k) as int].store);
        }
    }
    assert(r.snapshots()) by {
        assert forall|i: int, t: TxnId, k: Key|
            0 <= i < r.nodes.len() && r.nodes[i].undecided(t)
                && #[trigger] r.nodes[i].coordinating[t].reads.contains_key(
                k,
            ) implies r.nodes[i].coordinating[t].reads[k] == safety::seen_at(
            r.history,
            k,
            r.nodes[i].coordinating[t].begin_ts,
        ) by {
            assert(c.nodes[i].undecided(t));
            assert(r.nodes[i].coordinating.contains_key(t));
            assert(c.nodes[i].coordinating[t].reads.contains_key(k));
        }
    }
    assert(r.monotonic()) by {
        lemma_same_frontiers(c, r);
    }
    assert(r.watched_over()) by {
        lemma_same_watch(c, r);
    }
}

/// The monotonicity part depends on the samples and the frontiers only.
proof fn lemma_same_frontiers(c: ClusterState, r: ClusterState)
    requires
        c.shaped(),
        c.monotonic(),
        r.num_partitions == c.num_partitions,
        r.nodes.len() == c.nodes.len(),
        r.committed_floor == c.committed_floor,
        r.floor_samples == c.floor_samples,
        r.frontier_samples == c.frontier_samples,
        r.live_violations == c.live_violations,
        forall|i: int|
            0 <= i < c.nodes.len() ==> (#[trigger] r.nodes[i]).frontier == c.nodes[i].frontier,
    ensures
        r.monotonic(),
{
    assert forall|i: int| 0 <= i < r.frontier_samples.len() implies (
    #[trigger] r.frontier_samples[i]).0 < r.num_partitions && r.frontier_samples[i].2 <= r.node(
        r.frontier_samples[i].0,
    ).frontier_of(r.frontier_samples[i].1) by {
        let x = c.frontier_samples[i];
        assert(x.0 < c.num_partitions);
        assert(r.nodes[x.0 as int].frontier == c.nodes[x.0 as int].frontier);
    }
}

/// Prepared slices come and go as long as those that stay are resolvable.
pub proof fn lemma_intents(c: ClusterState, r: ClusterState)
    requires
        c.inv(),
        r == (ClusterState { nodes: r.nodes, ..c }),
        r.nodes.len() == c.nodes.len(),
        forall|i: int|
            0 <= i < c.nodes.len() ==> #[trigger] r.nodes[i] == (NodeState {
                prepared: r.nodes[i].prepared,
                ..c.nodes[i]
            }),
        forall|i: int, t: TxnId|
            0 <= i < c.nodes.len() && #[trigger] r.nodes[i].prepared.contains_key(t)
                ==> c.resolvable(t),
    ensures
        r.inv(),
        forall|t: TxnId| c.resolvable(t) ==> #[trigger] r.resolvable(t),
{
    // Everything but the prepared slices is as before, so the invariant holds of
    // the cluster with its old slices; the slices enter in one place only.
    assert forall|i: int, t: TxnId| 0 <= i < c.nodes.len() implies #[trigger] r.nodes[i].undecided(t)
        == c.nodes[i].undecided(t) by {}
    assert forall|t: TxnId| c.resolvable(t) implies #[trigger] r.resolvable(t) by {
        if !c.decisions.contains_key(t) {
            let i = choose|i: int| 0 <= i < c.nodes.len() && #[trigger] c.nodes[i].undecided(t);
            assert(r.nodes[i].undecided(t));
        }
    }
    assert(r.paired()) by {
        assert forall|i: int, t: TxnId| #[trigger]
            r.nodes[i].coordinating.contains_key(t) && 0 <= i < r.nodes.len() implies r.small_group(
            r.nodes[i].coordinating[t].participants,
        ) by {
            assert(c.nodes[i].coordinating.contains_key(t));
        }
    }
    assert(r.finite()) by {
        assert forall|i: int| 0 <= i < r.nodes.len() implies (
        #[trigger] r.nodes[i]).coordinating.dom().finite() by {
            assert(c.nodes[i].coordinating.dom().finite());
        }
        assert forall|i: int, t: TxnId| #[trigger]
            r.nodes[i].coordinating.contains_key(t) && 0 <= i
                < r.nodes.len() implies r.nodes[i].coordinating[t].writes.dom().finite() by {
            assert(c.nodes[i].coordinating.contains_key(t));
        }
    }
    assert(r.held()) by {
        assert forall|i: int, t: TxnId|
            0 <= i < r.nodes.len() && #[trigger] r.nodes[i].undecided(t) implies {
            let s = r.nodes[i].coordinating[t];
            &&& r.pending_prepares.contains_key(s.prepare_ts)
            &&& r.pending_prepares[s.prepare_ts] == s.writes.dom()
            &&& s.begin_ts <= r.committed_floor
            &&& s.started_at <= r.now
        } by {
            assert(c.nodes[i].undecided(t));
        }
        assert forall|i: int, t: TxnId, j: int, u: TxnId|
            0 <= i < r.nodes.len() && 0 <= j < r.nodes.len() && #[trigger] r.nodes[i].undecided(t)
                && #[trigger] r.nodes[j].undecided(u) && r.nodes[i].coordinating[t].prepare_ts
                == r.nodes[j].coordinating[u].prepare_ts implies i == j && t == u by {
            assert(c.nodes[i].undecided(t) && c.nodes[j].undecided(u));
        }
    }
    assert(r.logged()) by {
        assert forall|i: int, t: TxnId|
            0 <= i < r.nodes.len() && #[trigger] r.nodes[i].coordinating.contains_key(t) implies t
            < r.next_txn && r.nodes[i].coordinating[t].decided == r.decisions.contains_key(t) by {
            assert(c.nodes[i].coordinating.contains_key(t));
        }
        assert forall|i: int, j: int, t: TxnId|
            0 <= i < r.nodes.len() && 0 <= j < r.nodes.len()
                && #[trigger] r.nodes[i].coordinating.contains_key(t)
                && #[trigger] r.nodes[j].coordinating.contains_key(t) implies i == j by {
            assert(c.nodes[i].coordinating.contains_key(t));
            assert(c.nodes[j].coordinating.contains_key(t));
        }
    }
    assert(r.stored()) by {
        assert forall|k: Key|
            r.node(r.owner(k)).versions(k) == #[trigger] safety::timeline(r.history, k) by {
            assert(c.node(c.owner(k)).versions(k) == safety::timeline(c.history, k));
            assert(r.nodes[r.owner(k) as int].store == c.nodes[c.owner(k) as int].store);
        }
    }
    assert(r.snapshots()) by {
        assert forall|i: int, t: TxnId, k: Key|
            0 <= i < r.nodes.len() && r.nodes[i].undecided(t)
                && #[trigger] r.nodes[i].coordinating[t].reads.contains_key(
                k,
            ) implies r.nodes[i].coordinating[t].reads[k] == safety::seen_at(
            r.history,
            k,
            r.nodes[i].coordinating[t].begin_ts,
        ) by {
            assert(c.nodes[i].undecided(t));
            assert(c.nodes[i].coordinating[t].reads.contains_key(k));
        }
    }
    assert(r.monotonic()) by {
        lemma_same_frontiers(c, r);
    }
    assert(r.watched_over()) by {
        lemma_same_watch(c, r);
    }
}

/// A crash, before the floor follows.
#[verifier::rlimit(40)]
proof fn lemma_crashed_raw(c: ClusterState, node: NodeId, r: ClusterState)
    requires
        c.inv(),
        node < c.num_partitions,
        r == (ClusterState {
            nodes: c.nodes.update(
                node as int,
                NodeState { up: false, coordinating: Map::empty(), ..c.node(node) },
            ),
            decisions: Map::new(
                |t: TxnId| c.decisions.contains_key(t) || c.node(node).undecided(t),
                |t: TxnId|
                    if c.decisions.contains_key(t) {
                        c.decisions[t]
                    } else {
                        Decision::RolledBack
                    },
            ),
            pending_prepares: c.pending_prepares.remove_keys(c.abandoned_prepares(node)),
            ..c
        }),
    ensures
        r.inv(),
        forall|t: TxnId| c.resolvable(t) ==> #[trigger] r.resolvable(t),
        r.pending_prepares.dom().len() <= c.pending_prepares.dom().len(),
{
    let ni = node as int;
    let gone = c.abandoned_prepares(node);
    assert(r.pending_prepares.dom() =~= c.pending_prepares.dom().difference(gone));
    vstd::set_lib::lemma_len_subset(r.pending_prepares.dom(), c.pending_prepares.dom());
    assert forall|i: int, t: TxnId| 0 <= i < c.nodes.len() implies #[trigger] r.nodes[i].undecided(t)
        == (c.nodes[i].undecided(t) && i != ni) by {}
    assert forall|i: int, t: TxnId| 0 <= i < c.nodes.len() implies #[trigger]
        r.nodes[i].coordinating.contains_key(t) == (c.nodes[i].coordinating.contains_key(t) && i
        != ni) by {}
    assert forall|t: TxnId| c.resolvable(t) implies #[trigger] r.resolvable(t) by {
        if !c.decisions.contains_key(t) {
            let i = choose|i: int| 0 <= i < c.nodes.len() && #[trigger] c.nodes[i].undecided(t);
            if i != ni {
                assert(r.nodes[i].undecided(t));
            }
        }
    }
    assert(r.paired()) by {
        assert forall|i: int, t: TxnId| #[trigger]
            r.nodes[i].coordinating.contains_key(t) && 0 <= i < r.nodes.len() implies r.small_group(
            r.nodes[i].coordinating[t].participants,
        ) by {
            assert(c.nodes[i].coordinating.contains_key(t));
        }
    }
    assert(r.finite()) by {
        assert forall|i: int| 0 <= i < r.nodes.len() implies (
        #[trigger] r.nodes[i]).coordinating.dom().finite() by {
            assert(c.nodes[i].coordinating.dom().finite());
            if i == ni {
                assert(r.nodes[i].coordinating.dom() =~= Set::empty());
            }
        }
        assert forall|i: int, t: TxnId| #[trigger]
            r.nodes[i].coordinating.contains_key(t) && 0 <= i
                < r.nodes.len() implies r.nodes[i].coordinating[t].writes.dom().finite() by {
            assert(c.nodes[i].coordinating.contains_key(t));
        }
    }
    assert(r.clocked()) by {
        assert forall|p: Ts| #[trigger] r.pending_prepares.contains_key(p) implies r.committed_floor
            < p < r.tso_next by {
            assert(c.pending_prepares.contains_key(p));
        }
        assert forall|i: int| 0 <= i < r.history.len() implies (#[trigger] r.history[i]).begin_ts
            <= r.committed_floor && r.history[i].begin_ts < r.history[i].commit_ts
            && r.history[i].commit_ts <= r.max_applied by {
            assert(c.history[i].begin_ts <= c.committed_floor);
        }
    }
    assert(r.unique_commits()) by {
        assert forall|i: int, j: int| 0 <= i < j < r.history.len() implies (
        #[trigger] r.history[i]).commit_ts != (#[trigger] r.history[j]).commit_ts by {
            assert(c.history[i].commit_ts != c.history[j].commit_ts);
        }
        assert forall|i: int| 0 <= i < r.history.len() implies !r.pending_prepares.contains_key(
            (#[trigger] r.history[i]).commit_ts,
        ) by {
            assert(!c.pending_prepares.contains_key(c.history[i].commit_ts));
        }
    }
    assert(r.held()) by {
        assert forall|i: int, t: TxnId|
            0 <= i < r.nodes.len() && #[trigger] r.nodes[i].undecided(t) implies {
            let s = r.nodes[i].coordinating[t];
            &&& r.pending_prepares.contains_key(s.prepare_ts)
            &&& r.pending_prepares[s.prepare_ts] == s.writes.dom()
            &&& s.begin_ts <= r.committed_floor
            &&& s.started_at <= r.now
        } by {
            assert(c.nodes[i].undecided(t));
            let p = c.nodes[i].coordinating[t].prepare_ts;
            if gone.contains(p) {
                let u = choose|u: TxnId|
                    c.node(node).coordinating.dom().filter(
                        |t: TxnId| c.node(node).undecided(t),
                    ).contains(u) && c.node(node).coordinating[u].prepare_ts == p;
                assert(c.nodes[ni].undecided(u));
                assert(i == ni);
            }
        }
        assert forall|i: int, t: TxnId, j: int, u: TxnId|
            0 <= i < r.nodes.len() && 0 <= j < r.nodes.len() && #[trigger] r.nodes[i].undecided(t)
                && #[trigger] r.nodes[j].undecided(u) && r.nodes[i].coordinating[t].prepare_ts
                == r.nodes[j].coordinating[u].prepare_ts implies i == j && t == u by {
            assert(c.nodes[i].undecided(t) && c.nodes[j].undecided(u));
        }
    }
    assert(r.logged()) by {
        assert forall|i: int, t: TxnId|
            0 <= i < r.nodes.len() && #[trigger] r.nodes[i].coordinating.contains_key(t) implies t
            < r.next_txn && r.nodes[i].coordinating[t].decided == r.decisions.contains_key(t) by {
            assert(c.nodes[i].coordinating.contains_key(t));
            if c.node(node).undecided(t) {
                assert(c.nodes[ni].coordinating.contains_key(t));
            }
        }
        assert forall|t: TxnId| #[trigger] r.decisions.contains_key(t) implies t < r.next_txn by {
            if !c.decisions.contains_key(t) {
                assert(c.nodes[ni].coordinating.contains_key(t));
            }
        }
        assert forall|i: int, j: int, t: TxnId|
            0 <= i < r.nodes.len() && 0 <= j < r.nodes.len()
                && #[trigger] r.nodes[i].coordinating.contains_key(t)
                && #[trigger] r.nodes[j].coordinating.contains_key(t) implies i == j by {
            assert(c.nodes[i].coordinating.contains_key(t));
            assert(c.nodes[j].coordinating.contains_key(t));
        }
    }
    assert(r.intents_resolvable()) by {
        assert forall|i: int, t: TxnId|
            0 <= i < r.nodes.len() && #[trigger] r.nodes[i].prepared.contains_key(
                t,
            ) implies r.resolvable(t) by {
            assert(c.nodes[i].prepared.contains_key(t));
            assert(c.resolvable(t));
        }
    }
    assert(r.stored()) by {
        assert forall|k: Key|
            r.node(r.owner(k)).versions(k) == #[trigger] safety::timeline(r.history, k) by {
            assert(c.node(c.owner(k)).versions(k) == safety::timeline(c.history, k));
            assert(r.nodes[r.owner(k) as int].store == c.nodes[c.owner(k) as int].store);
        }
    }
    assert(r.serialized()) by {
        assert forall|i: int, k: Key, p: Ts|
            0 <= i < r.history.len() && #[trigger] r.history[i].reads.contains_key(k)
                && #[trigger] r.pending_prepares.contains_key(p) && r.history[i].begin_ts < p
                < r.history[i].commit_ts implies !r.pending_prepares[p].contains(k) by {
            assert(c.history[i].reads.contains_key(k) && c.pending_prepares.contains_key(p));
        }
        assert forall|i: int, k: Key, t: Ts|
            0 <= i < r.history.len() && #[trigger] r.history[i].reads.contains_key(k)
                && #[trigger] safety::timeline(r.history, k).contains_key(t) implies !(
        r.history[i].begin_ts < t < r.history[i].commit_ts) by {
            assert(c.history[i].reads.contains_key(k));
            assert(safety::timeline(c.history, k).contains_key(t));
        }
    }
    assert(r.snapshots()) by {
        assert forall|i: int, k: Key|
            0 <= i < r.history.len() && #[trigger] r.history[i].reads.contains_key(
                k,
            ) implies r.history[i].reads[k] == safety::seen_at(
            r.history,
            k,
            r.history[i].begin_ts,
        ) by {
            assert(c.history[i].reads.contains_key(k));
        }
        assert forall|i: int, t: TxnId, k: Key|
            0 <= i < r.nodes.len() && r.nodes[i].undecided(t)
                && #[trigger] r.nodes[i].coordinating[t].reads.contains_key(
                k,
            ) implies r.nodes[i].coordinating[t].reads[k] == safety::seen_at(
            r.history,
            k,
            r.nodes[i].coordinating[t].begin_ts,
        ) by {
            assert(r.nodes[i].undecided(t));
            assert(c.nodes[i].undecided(t));
            assert(c.nodes[i].coordinating[t].reads.contains_key(k));
        }
    }
    assert(r.monotonic()) by {
        lemma_same_frontiers(c, r);
    }
    assert(r.watched_over()) by {
        lemma_same_watch(c, r);
    }
}

/// A crash keeps the invariant.
pub proof fn lemma_crashed(c: ClusterState, node: NodeId)
    requires
        c.inv(),
        node < c.num_partitions,
    ensures
        c.crashed(node).inv(),
        forall|t: TxnId| c.resolvable(t) ==> #[trigger] c.crashed(node).resolvable(t),
        c.crashed(node).pending_prepares.dom().len() <= c.pending_prepares.dom().len(),
        c.crashed(node).tso_next == c.tso_next,
        c.crashed(node).now == c.now,
        c.crashed(node).num_partitions == c.num_partitions,
{
    if c.node(node).up {
        let raw = ClusterState {
            nodes: c.nodes.update(
                node as int,
                NodeState { up: false, coordinating: Map::empty(), ..c.node(node) },
            ),
            decisions: Map::new(
                |t: TxnId| c.decisions.contains_key(t) || c.node(node).undecided(t),
                |t: TxnId|
                    if c.decisions.contains_key(t) {
                        c.decisions[t]
                    } else {
                        Decision::RolledBack
                    },
            ),
            pending_prepares: c.pending_prepares.remove_keys(c.abandoned_prepares(node)),
            ..c
        };
        lemma_crashed_raw(c, node, raw);
        lemma_refloored(raw);
        let f = raw.refloored();
        let r = c.crashed(node);
        lemma_same_but_log(f, r);
        assert forall|t: TxnId| c.resolvable(t) implies #[trigger] r.resolvable(t) by {
            assert(raw.resolvable(t));
            lemma_refloored_resolvable(raw, t);
        }
    }
}

/// Following the floor leaves transactions as resolvable as they were.
pub proof fn lemma_refloored_resolvable(c: ClusterState, t: TxnId)
    ensures
        c.refloored().resolvable(t) == c.resolvable(t),
{
    let r = c.refloored();
    if c.resolvable(t) && !c.decisions.contains_key(t) {
        let i = choose|i: int| 0 <= i < c.nodes.len() && #[trigger] c.nodes[i].undecided(t);
        assert(r.nodes[i].undecided(t));
    }
    if r.resolvable(t) && !r.decisions.contains_key(t) {
        let i = choose|i: int| 0 <= i < r.nodes.len() && #[trigger] r.nodes[i].undecided(t);
        assert(c.nodes[i].undecided(t));
    }
}

/// A new subscription keeps the invariant.
pub proof fn lemma_subscribed(c: ClusterState, node: NodeId, keys: Set<Key>)
    requires
        c.inv(),
        node < c.num_partitions,
    ensures
        c.subscribed(node, keys).inv(),
        forall|t: TxnId| c.resolvable(t) ==> #[trigger] c.subscribed(node, keys).resolvable(t),
{
    let r = c.subscribed(node, keys);
    let t0 = ClusterState { subs: c.subs, ..r };
    lemma_same_but_log(c, t0);
    assert forall|t: TxnId| c.resolvable(t) implies #[trigger] r.resolvable(t) by {
        if !c.decisions.contains_key(t) {
            let i = choose|i: int| 0 <= i < c.nodes.len() && #[trigger] c.nodes[i].undecided(t);
            assert(r.nodes[i].undecided(t));
        }
    }
    assert(r.watched_over()) by {
        assert forall|s: int| 0 <= s < r.subs.len() implies (#[trigger] r.subs[s]).node
            < r.num_partitions by {
            if s < c.subs.len() {
                assert(c.subs[s].node < c.num_partitions);
            }
        }
        assert forall|s: int, e: int|
            0 <= s < r.subs.len() && 0 <= e < r.commit_log.len() implies #[trigger] r.covered(
            s,
            e,
        ) by {
            if s < c.subs.len() {
                assert(c.covered(s, e));
                assert(r.subs[s] == c.subs[s]);
            } else {
                if c.commit_log[e].ts > c.committed_floor && state::touches(
                    c.commit_log[e].writes,
                    keys,
                ) {
                    assert(c.stale_since(c.committed_floor, keys));
                }
            }
        }
        assert forall|i: int, k: Key|
            0 <= i < r.history.len() && #[trigger] r.history[i].writes.contains_key(
                k,
            ) implies r.in_log(r.history[i].commit_ts, k) by {
            assert(c.history[i].writes.contains_key(k));
            assert(c.in_log(c.history[i].commit_ts, k));
            let e = choose|e: int|
                0 <= e < c.commit_log.len() && (#[trigger] c.commit_log[e]).ts
                    == c.history[i].commit_ts && state::writes_key(c.commit_log[e].writes, k);
            assert(r.commit_log[e].ts == r.history[i].commit_ts);
        }
    }
    assert(t0.intents_resolvable());
    assert(r.intents_resolvable()) by {
        assert forall|i: int, t: TxnId|
            0 <= i < r.nodes.len() && #[trigger] r.nodes[i].prepared.contains_key(
                t,
            ) implies r.resolvable(t) by {
            assert(c.nodes[i].prepared.contains_key(t));
            assert(c.resolvable(t));
        }
    }
    assert(r.stored());
    assert(r.held());
}

/// Replaying one entry keeps the invariant, and the subscriptions of the node
/// have seen the entry.
#[verifier::rlimit(40)]
proof fn lemma_replayed_one(c: ClusterState, node: NodeId, idx: int)
    requires
        c.inv(),
        node < c.num_partitions,
        0 <= idx < c.commit_log.len(),
    ensures
        ({
            let r = c.replayed_one(node, idx);
            &&& r.inv()
            &&& forall|t: TxnId| c.resolvable(t) ==> #[trigger] r.resolvable(t)
            &&& r.subs.len() == c.subs.len()
            &&& forall|s: int|
                0 <= s < c.subs.len() ==> (#[trigger] r.subs[s]).node == c.subs[s].node
                    && r.subs[s].registered_ts == c.subs[s].registered_ts && r.subs[s].read_keys
                    == c.subs[s].read_keys && (c.subs[s].invalidated ==> r.subs[s].invalidated)
            &&& forall|s: int|
                0 <= s < c.subs.len() && (#[trigger] r.subs[s]).node == node
                    && c.commit_log[idx].source != node && c.commit_log[idx].ts
                    > c.subs[s].registered_ts && state::touches(
                    c.commit_log[idx].writes,
                    c.subs[s].read_keys,
                ) ==> r.subs[s].invalidated
        }),
{
    let r = c.replayed_one(node, idx);
    let en = c.commit_log[idx];
    let ni = node as int;
    assert forall|i: int, t: TxnId| 0 <= i < c.nodes.len() implies #[trigger] r.nodes[i].undecided(t)
        == c.nodes[i].undecided(t) by {}
    assert forall|i: int| 0 <= i < c.nodes.len() implies {
        let (a, b) = (#[trigger] r.nodes[i], c.nodes[i]);
        &&& a.store == b.store
        &&& a.prepared == b.prepared
        &&& a.coordinating == b.coordinating
        &&& a.cursor == b.cursor
        &&& (i != ni ==> a.frontier == b.frontier)
    } by {}
    assert forall|t: TxnId| c.resolvable(t) implies #[trigger] r.resolvable(t) by {
        if !c.decisions.contains_key(t) {
            let i = choose|i: int| 0 <= i < c.nodes.len() && #[trigger] c.nodes[i].undecided(t);
            assert(r.nodes[i].undecided(t));
        }
    }
    assert forall|s: int| 0 <= s < c.subs.len() implies (#[trigger] r.subs[s]).node
        == c.subs[s].node && r.subs[s].registered_ts == c.subs[s].registered_ts
        && r.subs[s].read_keys == c.subs[s].read_keys && (c.subs[s].invalidated
        ==> r.subs[s].invalidated) by {}
    assert(r.paired()) by {
        assert forall|i: int, t: TxnId| #[trigger]
            r.nodes[i].coordinating.contains_key(t) && 0 <= i < r.nodes.len() implies r.small_group(
            r.nodes[i].coordinating[t].participants,
        ) by {
            assert(c.nodes[i].coordinating.contains_key(t));
        }
    }
    assert(r.finite()) by {
        assert forall|i: int, t: TxnId| #[trigger]
            r.nodes[i].coordinating.contains_key(t) && 0 <= i
                < r.nodes.len() implies r.nodes[i].coordinating[t].writes.dom().finite() by {
            assert(c.nodes[i].coordinating.contains_key(t));
        }
    }
    assert(r.held()) by {
        assert forall|i: int, t: TxnId|
            0 <= i < r.nodes.len() && #[trigger] r.nodes[i].undecided(t) implies {
            let s = r.nodes[i].coordinating[t];
            &&& r.pending_prepares.contains_key(s.prepare_ts)
            &&& r.pending_prepares[s.prepare_ts] == s.writes.dom()
            &&& s.begin_ts <= r.committed_floor
            &&& s.started_at <= r.now
        } by {
            assert(c.nodes[i].undecided(t));
        }
        assert forall|i: int, t: TxnId, j: int, u: TxnId|
            0 <= i < r.nodes.len() && 0 <= j < r.nodes.len() && #[trigger] r.nodes[i].undecided(t)
                && #[trigger] r.nodes[j].undecided(u) && r.nodes[i].coordinating[t].prepare_ts
                == r.nodes[j].coordinating[u].prepare_ts implies i == j && t == u by {
            assert(c.nodes[i].undecided(t) && c.nodes[j].undecided(u));
        }
    }
    assert(r.logged()) by {
        assert forall|i: int, t: TxnId|
            0 <= i < r.nodes.len() && #[trigger] r.nodes[i].coordinating.contains_key(t) implies t
            < r.next_txn && r.nodes[i].coordinating[t].decided == r.decisions.contains_key(t) by {
            assert(c.nodes[i].coordinating.contains_key(t));
        }
        assert forall|i: int, j: int, t: TxnId|
            0 <= i < r.nodes.len() && 0 <= j < r.nodes.len()
                && #[trigger] r.nodes[i].coordinating.contains_key(t)
                && #[trigger] r.nodes[j].coordinating.contains_key(t) implies i == j by {
            assert(c.nodes[i].coordinating.contains_key(t));
            assert(c.nodes[j].coordinating.contains_key(t));
        }
    }
    assert(r.intents_resolvable()) by {
        assert forall|i: int, t: TxnId|
            0 <= i < r.nodes.len() && #[trigger] r.nodes[i].prepared.contains_key(
                t,
            ) implies r.resolvable(t) by {
            assert(c.nodes[i].prepared.contains_key(t));
            assert(c.resolvable(t));
        }
    }
    assert(r.stored()) by {
        assert forall|k: Key|
            r.node(r.owner(k)).versions(k) == #[trigger] safety::timeline(r.history, k) by {
            assert(c.node(c.owner(k)).versions(k) == safety::timeline(c.history, k));
            assert(r.nodes[r.owner(k) as int].store == c.nodes[c.owner(k) as int].store);
        }
    }
    assert(r.snapshots()) by {
        assert forall|i: int, t: TxnId, k: Key|
            0 <= i < r.nodes.len() && r.nodes[i].undecided(t)
                && #[trigger] r.nodes[i].coordinating[t].reads.contains_key(
                k,
            ) implies r.nodes[i].coordinating[t].reads[k] == safety::seen_at(
            r.history,
            k,
            r.nodes[i].coordinating[t].begin_ts,
        ) by {
            assert(c.nodes[i].undecided(t));
            assert(c.nodes[i].coordinating[t].reads.contains_key(k));
        }
    }
    assert(r.monotonic()) by {
        if en.source != node {
            let exposed = state::max_ts(c.node(node).frontier_of(en.source), en.ts);
            let last = c.frontier_samples.len() as int;
            assert forall|i: int| 0 <= i < r.frontier_samples.len() implies (
            #[trigger] r.frontier_samples[i]).0 < r.num_partitions && r.frontier_samples[i].2
                <= r.node(r.frontier_samples[i].0).frontier_of(r.frontier_samples[i].1) by {
                if i < last {
                    let x = c.frontier_samples[i];
                    assert(x.0 < c.num_partitions);
                    assert(x.2 <= c.node(x.0).frontier_of(x.1));
                }
            }
            assert forall|i: int, j: int|
                0 <= i < j < r.frontier_samples.len() && (#[trigger] r.frontier_samples[i]).0 == (
                #[trigger] r.frontier_samples[j]).0 && r.frontier_samples[i].1
                    == r.frontier_samples[j].1 implies r.frontier_samples[i].2
                <= r.frontier_samples[j].2 by {
                assert(r.frontier_samples[i] == c.frontier_samples[i]);
                if j < last {
                    assert(r.frontier_samples[j] == c.frontier_samples[j]);
                } else {
                    assert(c.frontier_samples[i].2 <= c.node(
                        c.frontier_samples[i].0,
                    ).frontier_of(c.frontier_samples[i].1));
                }
            }
        }
    }
    assert(r.watched_over()) by {
        assert forall|s: int, e: int|
            0 <= s < r.subs.len() && 0 <= e < r.commit_log.len() implies #[trigger] r.covered(
            s,
            e,
        ) by {
            assert(c.covered(s, e));
            assert(c.subs[s].node < c.num_partitions);
            assert(r.subs[s].node == c.subs[s].node);
            assert(r.nodes[c.subs[s].node as int].cursor == c.nodes[c.subs[s].node as int].cursor);
        }
        assert forall|s: int| 0 <= s < r.subs.len() implies (#[trigger] r.subs[s]).node
            < r.num_partitions by {
            assert(c.subs[s].node < c.num_partitions);
        }
        assert forall|i: int, k: Key|
            0 <= i < r.history.len() && #[trigger] r.history[i].writes.contains_key(
                k,
            ) implies r.in_log(r.history[i].commit_ts, k) by {
            assert(c.history[i].writes.contains_key(k));
            assert(c.in_log(c.history[i].commit_ts, k));
            let e = choose|e: int|
                0 <= e < c.commit_log.len() && (#[trigger] c.commit_log[e]).ts
                    == c.history[i].commit_ts && state::writes_key(c.commit_log[e].writes, k);
            assert(r.commit_log[e].ts == r.history[i].commit_ts);
        }
    }
}

/// Replaying a range keeps the invariant, and the subscriptions of the node
/// have seen the whole range.
proof fn lemma_replayed_range(c: ClusterState, node: NodeId, from: nat, to: nat)
    requires
        c.inv(),
        node < c.num_partitions,
        to <= c.commit_log.len(),
    ensures
        ({
            let r = c.replayed_range(node, from, to);
            &&& r.inv()
            &&& forall|t: TxnId| c.resolvable(t) ==> #[trigger] r.resolvable(t)
            &&& r.subs.len() == c.subs.len()
            &&& forall|s: int, e: int|
                0 <= s < r.subs.len() && from <= e < to && r.subs[s].node == node
                    && #[trigger] r.covered(s, e) && r.commit_log[e].source != node
                    && r.commit_log[e].ts > r.subs[s].registered_ts && state::touches(
                    r.commit_log[e].writes,
                    r.subs[s].read_keys,
                ) ==> r.subs[s].invalidated
            &&& r.commit_log == c.commit_log
            &&& r.num_partitions == c.num_partitions
            &&& r.tso_next == c.tso_next
            &&& r.pending_prepares == c.pending_prepares
            &&& r.now == c.now
            &&& r.placement_version == c.placement_version
            &&& r.decisions == c.decisions
            &&& forall|i: int|
                0 <= i < c.nodes.len() ==> (#[trigger] r.nodes[i]).up == c.nodes[i].up
                    && r.nodes[i].prepared == c.nodes[i].prepared && r.nodes[i].coordinating
                    == c.nodes[i].coordinating && r.nodes[i].cursor == c.nodes[i].cursor
        }),
    decreases to,
{
    if to > from {
        let p = c.replayed_range(node, from, (to - 1) as nat);
        let r = c.replayed_range(node, from, to);
        lemma_replayed_range(c, node, from, (to - 1) as nat);
        lemma_replayed_one(p, node, to - 1);
        assert forall|t: TxnId| c.resolvable(t) implies #[trigger] r.resolvable(t) by {
            assert(p.resolvable(t));
        }
        assert forall|s: int, e: int|
            0 <= s < r.subs.len() && from <= e < to && r.subs[s].node == node
                && #[trigger] r.covered(s, e) && r.commit_log[e].source != node
                && r.commit_log[e].ts > r.subs[s].registered_ts && state::touches(
                r.commit_log[e].writes,
                r.subs[s].read_keys,
            ) implies r.subs[s].invalidated by {
            assert(r.subs[s].node == p.subs[s].node);
            if e < to - 1 {
                assert(p.covered(s, e));
            }
        }
    }
}

/// A node catches up with the log.
pub proof fn lemma_replayed(c: ClusterState, node: NodeId)
    requires
        c.inv(),
        node < c.num_partitions,
    ensures
        ({
            let r = c.replayed(node);
            &&& r.inv()
            &&& forall|t: TxnId| c.resolvable(t) ==> #[trigger] r.resolvable(t)
            &&& r.commit_log == c.commit_log
            &&& r.num_partitions == c.num_partitions
            &&& r.tso_next == c.tso_next
            &&& r.pending_prepares == c.pending_prepares
            &&& r.now == c.now
            &&& r.placement_version == c.placement_version
            &&& r.decisions == c.decisions
            &&& forall|i: int|
                0 <= i < c.nodes.len() ==> (#[trigger] r.nodes[i]).up == c.nodes[i].up
                    && r.nodes[i].prepared == c.nodes[i].prepared && r.nodes[i].coordinating
                    == c.nodes[i].coordinating && r.nodes[i].cursor == (if i == node {
                    c.commit_log.len()
                } else {
                    c.nodes[i].cursor
                })
        }),
{
    let from = c.node(node).cursor;
    let to = c.commit_log.len();
    lemma_replayed_range(c, node, from, to);
    let p = c.replayed_range(node, from, to);
    let r = c.replayed(node);
    let ni = node as int;
    assert(p.nodes[ni].cursor == from);
    // Only the cursor differs from `p`.
    let same = ClusterState { nodes: p.nodes, ..r };
    assert(same == p);
    assert forall|i: int, t: TxnId| 0 <= i < p.nodes.len() implies #[trigger] r.nodes[i].undecided(t)
        == p.nodes[i].undecided(t) by {}
    assert forall|t: TxnId| c.resolvable(t) implies #[trigger] r.resolvable(t) by {
        assert(p.resolvable(t));
        if !p.decisions.contains_key(t) {
            let i = choose|i: int| 0 <= i < p.nodes.len() && #[trigger] p.nodes[i].undecided(t);
            assert(r.nodes[i].undecided(t));
        }
    }
    lemma_cursor(p, node, to, r);
}

/// Moving a cursor to the end of the log keeps the invariant once the
/// subscriptions of the node have seen what it passes over.
proof fn lemma_cursor(p: ClusterState, node: NodeId, to: nat, r: ClusterState)
    requires
        p.inv(),
        node < p.num_partitions,
        to == p.commit_log.len(),
        r == p.with_node(node, NodeState { cursor: to, ..p.node(node) }),
        forall|s: int, e: int|
            0 <= s < p.subs.len() && p.node(node).cursor <= e < to && p.subs[s].node == node
                && #[trigger] p.covered(s, e) && p.commit_log[e].source != node
                && p.commit_log[e].ts > p.subs[s].registered_ts && state::touches(
                p.commit_log[e].writes,
                p.subs[s].read_keys,
            ) ==> p.subs[s].invalidated,
    ensures
        r.inv(),
{
    let ni = node as int;
    assert forall|i: int, t: TxnId| 0 <= i < p.nodes.len() implies #[trigger] r.nodes[i].undecided(t)
        == p.nodes[i].undecided(t) by {}
    assert forall|i: int| 0 <= i < p.nodes.len() implies {
        let (a, b) = (#[trigger] r.nodes[i], p.nodes[i]);
        &&& a.store == b.store
        &&& a.prepared == b.prepared
        &&& a.coordinating == b.coordinating
        &&& a.frontier == b.frontier
        &&& (i != ni ==> a.cursor == b.cursor)
    } by {}
    assert forall|t: TxnId| p.resolvable(t) implies #[trigger] r.resolvable(t) by {
        if !p.decisions.contains_key(t) {
            let i = choose|i: int| 0 <= i < p.nodes.len() && #[trigger] p.nodes[i].undecided(t);
            assert(r.nodes[i].undecided(t));
        }
    }
    assert(r.paired()) by {
        assert forall|i: int, t: TxnId| #[trigger]
            r.nodes[i].coordinating.contains_key(t) && 0 <= i < r.nodes.len() implies r.small_group(
            r.nodes[i].coordinating[t].participants,
        ) by {
            assert(p.nodes[i].coordinating.contains_key(t));
        }
    }
    assert(r.finite()) by {
        assert forall|i: int, t: TxnId| #[trigger]
            r.nodes[i].coordinating.contains_key(t) && 0 <= i
                < r.nodes.len() implies r.nodes[i].coordinating[t].writes.dom().finite() by {
            assert(p.nodes[i].coordinating.contains_key(t));
        }
    }
    assert(r.held()) by {
        assert forall|i: int, t: TxnId|
            0 <= i < r.nodes.len() && #[trigger] r.nodes[i].undecided(t) implies {
            let s = r.nodes[i].coordinating[t];
            &&& r.pending_prepares.contains_key(s.prepare_ts)
            &&& r.pending_prepares[s.prepare_ts] == s.writes.dom()
            &&& s.begin_ts <= r.committed_floor
            &&& s.started_at <= r.now
        } by {
            assert(p.nodes[i].undecided(t));
        }
        assert forall|i: int, t: TxnId, j: int, u: TxnId|
            0 <= i < r.nodes.len() && 0 <= j < r.nodes.len() && #[trigger] r.nodes[i].undecided(t)
                && #[trigger] r.nodes[j].undecided(u) && r.nodes[i].coordinating[t].prepare_ts
                == r.nodes[j].coordinating[u].prepare_ts implies i == j && t == u by {
            assert(p.nodes[i].undecided(t) && p.nodes[j].undecided(u));
        }
    }
    assert(r.logged()) by {
        assert forall|i: int, t: TxnId|
            0 <= i < r.nodes.len() && #[trigger] r.nodes[i].coordinating.contains_key(t) implies t
            < r.next_txn && r.nodes[i].coordinating[t].decided == r.decisions.contains_key(t) by {
            assert(p.nodes[i].coordinating.contains_key(t));
        }
        assert forall|i: int, j: int, t: TxnId|
            0 <= i < r.nodes.len() && 0 <= j < r.nodes.len()
                && #[trigger] r.nodes[i].coordinating.contains_key(t)
                && #[trigger] r.nodes[j].coordinating.contains_key(t) implies i == j by {
            assert(p.nodes[i].coordinating.contains_key(t));
            assert(p.nodes[j].coordinating.contains_key(t));
        }
    }
    assert(r.intents_resolvable()) by {
        assert forall|i: int, t: TxnId|
            0 <= i < r.nodes.len() && #[trigger] r.nodes[i].prepared.contains_key(
                t,
            ) implies r.resolvable(t) by {
            assert(p.nodes[i].prepared.contains_key(t));
            assert(p.resolvable(t));
        }
    }
    assert(r.stored()) by {
        assert forall|k: Key|
            r.node(r.owner(k)).versions(k) == #[trigger] safety::timeline(r.history, k) by {
            assert(p.node(p.owner(k)).versions(k) == safety::timeline(p.history, k));
            assert(r.nodes[r.owner(k) as int].store == p.nodes[p.owner(k) as int].store);
        }
    }
    assert(r.snapshots()) by {
        assert forall|i: int, t: TxnId, k: Key|
            0 <= i < r.nodes.len() && r.nodes[i].undecided(t)
                && #[trigger] r.nodes[i].coordinating[t].reads.contains_key(
                k,
            ) implies r.nodes[i].coordinating[t].reads[k] == safety::seen_at(
            r.history,
            k,
            r.nodes[i].coordinating[t].begin_ts,
        ) by {
            assert(p.nodes[i].undecided(t));
            assert(p.nodes[i].coordinating[t].reads.contains_key(k));
        }
    }
    assert(r.monotonic()) by {
        lemma_same_frontiers(p, r);
    }
    assert(r.watched_over()) by {
        assert forall|s: int, e: int|
            0 <= s < r.subs.len() && 0 <= e < r.commit_log.len() implies #[trigger] r.covered(
            s,
            e,
        ) by {
            assert(p.covered(s, e));
            assert(p.subs[s].node < p.num_partitions);
            if p.subs[s].node != node {
                assert(r.nodes[p.subs[s].node as int].cursor == p.nodes[p.subs[s].node as int].cursor);
            }
        }
        assert forall|i: int, k: Key|
            0 <= i < r.history.len() && #[trigger] r.history[i].writes.contains_key(
                k,
            ) implies r.in_log(r.history[i].commit_ts, k) by {
            assert(p.history[i].writes.contains_key(k));
            assert(p.in_log(p.history[i].commit_ts, k));
            let e = choose|e: int|
                0 <= e < p.commit_log.len() && (#[trigger] p.commit_log[e]).ts
                    == p.history[i].commit_ts && state::writes_key(p.commit_log[e].writes, k);
            assert(r.commit_log[e].ts == r.history[i].commit_ts);
        }
    }
}

/// A transaction in one partition keeps the invariant.
#[verifier::rlimit(40)]
pub proof fn lemma_single_committed(
    c: ClusterState,
    reads: Map<Key, Value>,
    write_keys: Set<Key>,
)
    requires
        c.inv(),
        c.tso_next < u64::MAX,
        write_keys.finite(),
        write_keys.len() <= 2,
        c.next_value + 2 <= u64::MAX,
        forall|k: Key| #[trigger]
            reads.contains_key(k) ==> reads[k] == c.value_as_of(k, c.committed_floor),
    ensures
        ({
            let r = c.single_committed(c.committed_floor, reads, write_keys);
            &&& r.inv()
            &&& forall|t: TxnId| c.resolvable(t) ==> #[trigger] r.resolvable(t)
            &&& r.tso_next <= c.tso_next + 1
            &&& r.tso_next >= c.tso_next
            &&& r.pending_prepares == c.pending_prepares
            &&& r.num_partitions == c.num_partitions
            &&& r.now == c.now
            &&& r.placement_version == c.placement_version
        }),
{
    let begin = c.committed_floor;
    let owner = c.owner(ordered::least_u32(write_keys));
    let ts = c.next_ts();
    let s1 = c.allocated();
    let keys = ordered::ascending_u32(write_keys);
    let writes = state::numbered(keys, c.next_value);
    let r = c.single_committed(begin, reads, write_keys);
    ordered::lemma_ascending_u32(write_keys);
    crate::model::lemma_set_len(keys, write_keys);
    lemma_numbered(keys, c.next_value);
    if write_keys.is_empty() || !c.node(owner).up || c.has_conflict(reads, begin) {
    } else if s1.pending_blocks(reads, ts) {
        lemma_allocated(c, 0, s1);
    } else {
        let s2 = ClusterState { next_value: (c.next_value + keys.len()) as u64, ..s1 };
        lemma_allocated(c, keys.len(), s2);
        let msg = "commit 1P owner="@ + crate::text::dec(owner as nat) + " begin="@
            + crate::text::dec(begin as nat) + " commit="@ + crate::text::dec(ts as nat) + " keys="@
            + crate::text::list_text("["@, keys, "]"@);
        let s3 = s2.traced(msg);
        lemma_same_but_log(s2, s3);
        assert(!c.pending_prepares.contains_key(ts)) by {
            if c.pending_prepares.contains_key(ts) {
                assert(ts < c.tso_next);
            }
        }
        assert forall|j: int| 0 <= j < s3.history.len() implies (
        #[trigger] s3.history[j]).commit_ts != ts by {
            assert(c.history[j].commit_ts <= c.max_applied);
        }
        assert forall|j: int, k: Key|
            0 <= j < s3.history.len() && #[trigger] s3.history[j].reads.contains_key(k)
                && s3.history[j].begin_ts < ts
                < s3.history[j].commit_ts implies !writes.contains_key(k) by {
            assert(c.history[j].commit_ts <= c.max_applied);
        }
        assert forall|k: Key| #[trigger] reads.contains_key(k) implies reads[k]
            == safety::seen_at(s3.history, k, begin) by {
            assert(c.node(c.owner(k)).versions(k) == safety::timeline(c.history, k));
        }
        lemma_validated(c, reads, begin);
        assert forall|k: Key, p: Ts| #[trigger]
            reads.contains_key(k) && #[trigger] s3.pending_prepares.contains_key(p) && p
                < ts implies !s3.pending_prepares[p].contains(k) by {
            assert(s1.pending_prepares.contains_key(p));
        }
        lemma_landed(s3, begin, ts, reads, writes);
        let landed = s3.landed(ts, writes).recorded(begin, ts, reads, writes);
        lemma_refloored(landed);
        assert(r == s3.landed(ts, writes).refloored().recorded(begin, ts, reads, writes));
        assert(r =~= landed.refloored());
        assert forall|t: TxnId| c.resolvable(t) implies #[trigger] r.resolvable(t) by {
            assert(s2.resolvable(t));
            assert(s3.resolvable(t));
            assert(landed.resolvable(t));
            lemma_refloored_resolvable(landed, t);
        }
    }
}

/// Numbered keys are exactly the listed ones.
pub proof fn lemma_numbered(keys: Seq<Key>, first: Value)
    ensures
        state::numbered(keys, first).dom() == keys.to_set(),
        state::numbered(keys, first).dom().finite(),
    decreases keys.len(),
{
    if keys.len() > 0 {
        lemma_numbered(keys.drop_last(), first);
        let a = keys.drop_last();
        assert(keys =~= a.push(keys.last()));
        assert forall|x: Key| keys.to_set().contains(x) == a.to_set().insert(
            keys.last(),
        ).contains(x) by {
            if keys.to_set().contains(x) {
                let m = choose|m: int| 0 <= m < keys.len() && keys[m] == x;
                if m < a.len() {
                    assert(a[m] == x);
                }
            }
            if a.to_set().contains(x) {
                let m = choose|m: int| 0 <= m < a.len() && a[m] == x;
                assert(keys[m] == x);
            }
            assert(keys[keys.len() - 1] == keys.last());
        }
        assert(keys.to_set() =~= a.to_set().insert(keys.last()));
        assert(state::numbered(keys, first).dom() =~= keys.to_set());
    } else {
        assert(state::numbered(keys, first).dom() =~= keys.to_set());
    }
}

/// Without a conflict no read key has a version after the snapshot.
pub proof fn lemma_validated(c: ClusterState, reads: Map<Key, Value>, begin_ts: Ts)
    requires
        c.stored(),
        !c.has_conflict(reads, begin_ts),
    ensures
        forall|k: Key, t: Ts| #[trigger]
            reads.contains_key(k) && #[trigger] safety::timeline(c.history, k).contains_key(t)
                ==> t <= begin_ts,
{
    assert forall|k: Key, t: Ts| #[trigger]
        reads.contains_key(k) && #[trigger] safety::timeline(c.history, k).contains_key(
            t,
        ) implies t <= begin_ts by {
        let m = safety::timeline(c.history, k);
        assert(!c.key_conflicts(k, begin_ts));
        assert(c.node(c.owner(k)).versions(k) == m);
        lemma_timeline_finite(c.history, k);
        assert(m.dom().contains(t));
        assert(m.dom().len() > 0) by {
            if m.dom().len() == 0 {
                assert(m.dom() =~= Set::empty());
            }
        }
        let g = ordered::lemma_greatest_u64(m.dom());
        assert(t <= g);
    }
}

} // verus!
