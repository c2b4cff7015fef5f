//! What the cluster keeps on record, and that no step falsifies it: what has
//! committed, what was decided, which placement is known where, and what every
//! replica holds.
use crate::model::preservation;
use crate::model::safety;
use crate::model::state;
use crate::model::state::{ClusterState, Decision, NodeState, TxnState};
use crate::ordered;
use crate::types::{Key, NodeId, Ts, TxnId, Value};
use vstd::prelude::*;

verus! {

/// No value is written by both.
pub open spec fn apart(a: Map<Key, Value>, b: Map<Key, Value>) -> bool {
    forall|j: Key, k: Key| #[trigger] a.contains_key(j) && #[trigger] b.contains_key(k) ==> a[j] != b[k]
}

impl ClusterState {
    /// A transaction has committed at `ts`.
    pub open spec fn committed_at(self, ts: Ts) -> bool {
        exists|i: int| 0 <= i < self.history.len() && (#[trigger] self.history[i]).commit_ts == ts
    }

    /// The decision log has `txn` as committed.
    pub open spec fn has_committed(self, txn: TxnId) -> bool {
        self.decisions.contains_key(txn) && self.decisions[txn] is Committed
    }

    /// `writes` are what `txn` writes, and nobody else writes their values. Until
    /// `txn` commits, nothing in the history does.
    pub open spec fn tied(self, txn: TxnId, writes: Map<Key, Value>) -> bool {
        &&& txn < self.next_txn
        &&& forall|k: Key| #[trigger] writes.contains_key(k) ==> writes[k] < self.next_value
        &&& forall|i: int|
            0 <= i < self.nodes.len() && #[trigger] self.nodes[i].coordinating.contains_key(txn)
                ==> self.nodes[i].coordinating[txn].writes == writes
        &&& forall|i: int, u: TxnId|
            0 <= i < self.nodes.len() && u != txn
                && #[trigger] self.nodes[i].coordinating.contains_key(u) ==> apart(
                self.nodes[i].coordinating[u].writes,
                writes,
            )
        &&& !self.has_committed(txn) ==> forall|h: int|
            0 <= h < self.history.len() ==> apart((#[trigger] self.history[h]).writes, writes)
    }

    /// `node` does not know placement `version`, which is out.
    pub open spec fn lacks_placement(self, node: NodeId, version: u64) -> bool {
        &&& node < self.nodes.len()
        &&& self.node(node).placement_version != version
        &&& version <= self.placement_version
    }

    /// Write `j` of log entry `e` is the owner's, and the history has it.
    pub open spec fn is_logged_write(self, e: int, j: int) -> bool {
        let (k, v) = self.commit_log[e].writes[j];
        let ts = self.commit_log[e].ts;
        &&& self.commit_log[e].source == self.owner(k)
        &&& safety::timeline(self.history, k).contains_key(ts)
        &&& safety::timeline(self.history, k)[ts] == v
    }

    /// Log entry `e` brought `node` the value `v` of `key` at `ts`.
    pub open spec fn brought(self, e: int, node: int, key: Key, ts: Ts, v: Value) -> bool {
        &&& self.commit_log[e].source != node
        &&& self.commit_log[e].ts == ts
        &&& self.commit_log[e].writes.contains((key, v))
    }

    /// Node `i` holds the newest of what the first `m` log entries brought it.
    pub open spec fn mirrors(self, i: int, m: nat) -> bool {
        let replica = self.nodes[i].replica;
        &&& forall|k: Key| #[trigger]
            replica.contains_key(k) ==> exists|e: int|
                0 <= e < m && #[trigger] self.brought(e, i, k, replica[k].0, replica[k].1)
        &&& forall|e: int, j: int|
            0 <= e < m && self.commit_log[e].source != i && 0 <= j < self.commit_log[e].writes.len()
                ==> {
                let k = (#[trigger] self.commit_log[e].writes[j]).0;
                replica.contains_key(k) && replica[k].0 >= self.commit_log[e].ts
            }
    }

    /// What is on record agrees with what has happened.
    pub open spec fn on_record(self) -> bool {
        &&& self.max_applied == 0 || self.committed_at(self.max_applied)
        &&& forall|i: int|
            0 <= i < self.nodes.len() ==> (#[trigger] self.nodes[i]).placement_version
                <= self.placement_version
        &&& forall|t: TxnId| #[trigger]
            self.has_committed(t) ==> self.committed_at(self.decisions[t]->Committed_0)
        &&& forall|h: int, k: Key|
            0 <= h < self.history.len() && #[trigger] self.history[h].writes.contains_key(k)
                ==> self.history[h].writes[k] < self.next_value
        &&& forall|e: int, j: int|
            0 <= e < self.commit_log.len() && 0 <= j < self.commit_log[e].writes.len()
                ==> #[trigger] self.is_logged_write(e, j)
        &&& forall|i: int|
            0 <= i < self.nodes.len() ==> #[trigger] self.mirrors(i, self.nodes[i].cursor)
        &&& forall|i: int, t: TxnId|
            0 <= i < self.nodes.len() && #[trigger] self.nodes[i].coordinating.contains_key(t)
                ==> self.tied(t, self.nodes[i].coordinating[t].writes)
    }

    /// `r` decides everything that this cluster decided, the same way.
    pub open spec fn keeps_decisions(self, r: ClusterState) -> bool {
        forall|t: TxnId| #[trigger]
            self.decisions.contains_key(t) ==> r.decisions.contains_key(t) && r.decisions[t]
                == self.decisions[t]
    }

    /// `r` may come after: it has as many partitions, a floor no lower, the same
    /// decisions and perhaps more, and it forgets nothing on record.
    pub open spec fn leads_to(self, r: ClusterState) -> bool {
        &&& r.num_partitions == self.num_partitions
        &&& r.nodes.len() == self.nodes.len()
        &&& r.committed_floor >= self.committed_floor
        &&& r.placement_version >= self.placement_version
        &&& self.keeps_decisions(r)
        &&& self.on_record() ==> r.on_record()
        &&& forall|t: TxnId, writes: Map<Key, Value>|
            self.tied(t, writes) ==> #[trigger] r.tied(t, writes)
        &&& forall|node: NodeId, v: u64|
            self.lacks_placement(node, v) ==> #[trigger] r.lacks_placement(node, v)
    }
}

/// What comes after what comes after comes after.
pub proof fn lemma_leads_on(a: ClusterState, b: ClusterState, c: ClusterState)
    requires
        a.leads_to(b),
        b.leads_to(c),
    ensures
        a.leads_to(c),
{
    assert forall|t: TxnId, writes: Map<Key, Value>| a.tied(t, writes) implies #[trigger] c.tied(
        t,
        writes,
    ) by {
        assert(b.tied(t, writes));
    }
    assert forall|node: NodeId, v: u64|
        a.lacks_placement(node, v) implies #[trigger] c.lacks_placement(node, v) by {
        assert(b.lacks_placement(node, v));
    }
    assert forall|t: TxnId| #[trigger] a.decisions.contains_key(t) implies c.decisions.contains_key(
        t,
    ) && c.decisions[t] == a.decisions[t] by {
        assert(b.decisions.contains_key(t));
    }
}

/// `r` has the nodes of `c` but for what the record does not speak of, and of
/// coordinated transactions at most those of `c`.
pub open spec fn same_nodes(c: ClusterState, r: ClusterState) -> bool {
    &&& r.num_partitions == c.num_partitions
    &&& r.nodes.len() == c.nodes.len()
    &&& forall|i: int|
        0 <= i < c.nodes.len() ==> {
            let (a, b) = (#[trigger] r.nodes[i], c.nodes[i]);
            &&& a.placement_version == b.placement_version
            &&& a.replica == b.replica
            &&& a.cursor == b.cursor
        }
    &&& forall|i: int, t: TxnId|
        0 <= i < c.nodes.len() && #[trigger] r.nodes[i].coordinating.contains_key(t)
            ==> c.nodes[i].coordinating.contains_key(t) && r.nodes[i].coordinating[t].writes
            == c.nodes[i].coordinating[t].writes
}

proof fn lemma_same_mirrors(c: ClusterState, r: ClusterState, i: int)
    requires
        0 <= i < c.nodes.len(),
        c.nodes.len() == r.nodes.len(),
        c.mirrors(i, c.nodes[i].cursor),
        c.nodes[i].cursor <= c.commit_log.len(),
        r.nodes[i].replica == c.nodes[i].replica,
        r.nodes[i].cursor == c.nodes[i].cursor,
        c.commit_log.len() <= r.commit_log.len(),
        forall|e: int|
            0 <= e < c.commit_log.len() ==> #[trigger] r.commit_log[e] == c.commit_log[e],
    ensures
        r.mirrors(i, r.nodes[i].cursor),
{
    let m = c.nodes[i].cursor;
    let replica = c.nodes[i].replica;
    assert forall|k: Key| #[trigger] r.nodes[i].replica.contains_key(k) implies exists|e: int|
        0 <= e < m && #[trigger] r.brought(e, i, k, replica[k].0, replica[k].1) by {
        assert(replica.contains_key(k));
        let e = choose|e: int|
            0 <= e < m && #[trigger] c.brought(e, i, k, replica[k].0, replica[k].1);
        assert(r.commit_log[e] == c.commit_log[e]);
        assert(r.brought(e, i, k, replica[k].0, replica[k].1));
    }
    assert forall|e: int, j: int|
        0 <= e < m && r.commit_log[e].source != i && 0 <= j < r.commit_log[e].writes.len() implies ({
        let k = (#[trigger] r.commit_log[e].writes[j]).0;
        replica.contains_key(k) && replica[k].0 >= r.commit_log[e].ts
    }) by {
        assert(r.commit_log[e] == c.commit_log[e]);
        let w = c.commit_log[e].writes[j];
    }
}

/// A step that commits nothing.
pub proof fn lemma_quiet_step(c: ClusterState, r: ClusterState)
    requires
        c.inv(),
        same_nodes(c, r),
        r.max_applied == c.max_applied,
        r.placement_version == c.placement_version,
        r.history == c.history,
        r.commit_log == c.commit_log,
        r.committed_floor >= c.committed_floor,
        r.next_txn >= c.next_txn,
        r.next_value >= c.next_value,
        c.keeps_decisions(r),
        forall|t: TxnId| #[trigger] r.has_committed(t) ==> c.has_committed(t),
    ensures
        c.leads_to(r),
{
    assert forall|t: TxnId, writes: Map<Key, Value>| c.tied(t, writes) implies #[trigger] r.tied(
        t,
        writes,
    ) by {
        lemma_quiet_tied(c, r, t, writes);
    }
    assert forall|node: NodeId, v: u64|
        c.lacks_placement(node, v) implies #[trigger] r.lacks_placement(node, v) by {
        assert(r.nodes[node as int].placement_version == c.nodes[node as int].placement_version);
    }
    if c.on_record() {
        assert forall|t: TxnId| #[trigger] r.has_committed(t) implies r.committed_at(
            r.decisions[t]->Committed_0,
        ) by {
            assert(c.has_committed(t));
            assert(c.decisions.contains_key(t));
            let ts = c.decisions[t]->Committed_0;
            let h = choose|h: int|
                0 <= h < c.history.len() && (#[trigger] c.history[h]).commit_ts == ts;
            assert(r.history[h].commit_ts == ts);
        }
        if c.max_applied != 0 {
            let h = choose|h: int|
                0 <= h < c.history.len() && (#[trigger] c.history[h]).commit_ts == c.max_applied;
            assert(r.history[h].commit_ts == r.max_applied);
        }
        assert forall|h: int, k: Key|
            0 <= h < r.history.len() && #[trigger] r.history[h].writes.contains_key(
                k,
            ) implies r.history[h].writes[k] < r.next_value by {
            assert(c.history[h].writes.contains_key(k));
        }
        assert forall|e: int, j: int|
            0 <= e < r.commit_log.len() && 0 <= j
                < r.commit_log[e].writes.len() implies #[trigger] r.is_logged_write(e, j) by {
            assert(c.is_logged_write(e, j));
        }
        assert forall|i: int| 0 <= i < r.nodes.len() implies #[trigger] r.mirrors(
            i,
            r.nodes[i].cursor,
        ) by {
            assert(c.mirrors(i, c.nodes[i].cursor));
            lemma_same_mirrors(c, r, i);
        }
        assert forall|i: int, t: TxnId|
            0 <= i < r.nodes.len() && #[trigger] r.nodes[i].coordinating.contains_key(
                t,
            ) implies r.tied(t, r.nodes[i].coordinating[t].writes) by {
            assert(c.nodes[i].coordinating.contains_key(t));
            assert(c.tied(t, c.nodes[i].coordinating[t].writes));
            assert(r.tied(t, c.nodes[i].coordinating[t].writes));
        }
    }
}

proof fn lemma_quiet_tied(c: ClusterState, r: ClusterState, t: TxnId, writes: Map<Key, Value>)
    requires
        same_nodes(c, r),
        r.history == c.history,
        r.next_txn >= c.next_txn,
        r.next_value >= c.next_value,
        c.keeps_decisions(r),
        c.tied(t, writes),
    ensures
        r.tied(t, writes),
{
    assert forall|i: int|
        0 <= i < r.nodes.len() && #[trigger] r.nodes[i].coordinating.contains_key(
            t,
        ) implies r.nodes[i].coordinating[t].writes == writes by {
        assert(c.nodes[i].coordinating.contains_key(t));
    }
    assert forall|i: int, u: TxnId|
        0 <= i < r.nodes.len() && u != t && #[trigger] r.nodes[i].coordinating.contains_key(
            u,
        ) implies apart(r.nodes[i].coordinating[u].writes, writes) by {
        assert(c.nodes[i].coordinating.contains_key(u));
    }
    if !r.has_committed(t) {
        assert(!c.has_committed(t)) by {
            if c.has_committed(t) {
                assert(c.decisions.contains_key(t));
            }
        }
        assert forall|h: int| 0 <= h < r.history.len() implies apart(
            (#[trigger] r.history[h]).writes,
            writes,
        ) by {
            assert(apart(c.history[h].writes, writes));
        }
    }
}

/// The history with one more transaction, key by key.
proof fn lemma_timeline_grows(history: Seq<TxnState>, t: TxnState, key: Key)
    ensures
        safety::timeline(history.push(t), key) == if t.writes.contains_key(key) {
            safety::timeline(history, key).insert(t.commit_ts, t.writes[key])
        } else {
            safety::timeline(history, key)
        },
{
    assert(history.push(t).drop_last() =~= history);
}

/// What the log entries of a commit hold.
proof fn lemma_entries(n: u32, ts: Ts, writes: Map<Key, Value>, e: int, j: int)
    requires
        writes.dom().finite(),
        0 <= e < state::entries(n, ts, writes).len(),
        0 <= j < state::entries(n, ts, writes)[e].writes.len(),
    ensures
        state::entries(n, ts, writes)[e].ts == ts,
        ({
            let (k, v) = state::entries(n, ts, writes)[e].writes[j];
            &&& writes.contains_key(k)
            &&& writes[k] == v
            &&& state::owner_among(n, k) == state::entries(n, ts, writes)[e].source
        }),
{
    let o = state::entries(n, ts, writes)[e].source;
    let owned = state::owned_keys(n, writes, o);
    assert(owned.finite());
    ordered::lemma_ascending_u32(owned);
    let keys = ordered::ascending_u32(owned);
    assert(keys.to_set().contains(keys[j]));
}

/// A step that commits `writes` at `ts`.
pub proof fn lemma_commit_step(c: ClusterState, r: ClusterState, t: TxnState)
    requires
        c.inv(),
        same_nodes(c, r),
        t.writes.dom().finite(),
        forall|h: int| 0 <= h < c.history.len() ==> (#[trigger] c.history[h]).commit_ts != t.commit_ts,
        r.max_applied == state::max_ts(c.max_applied, t.commit_ts),
        r.placement_version == c.placement_version,
        r.history == c.history.push(t),
        r.commit_log == c.commit_log + state::entries(c.num_partitions, t.commit_ts, t.writes),
        r.committed_floor >= c.committed_floor,
        r.next_txn >= c.next_txn,
        r.next_value >= c.next_value,
        c.keeps_decisions(r),
        forall|u: TxnId| #[trigger]
            r.has_committed(u) ==> c.has_committed(u) || r.decisions[u] == Decision::Committed(
                t.commit_ts,
            ),
        forall|k: Key| #[trigger] t.writes.contains_key(k) ==> c.on_record() ==> t.writes[k]
            < r.next_value,
        forall|u: TxnId, writes: Map<Key, Value>| #[trigger]
            c.tied(u, writes) && !r.has_committed(u) ==> apart(t.writes, writes),
    ensures
        c.leads_to(r),
{
    let ts = t.commit_ts;
    assert forall|u: TxnId, writes: Map<Key, Value>| c.tied(u, writes) implies #[trigger] r.tied(
        u,
        writes,
    ) by {
        lemma_commit_tied(c, r, t, u, writes);
    }
    assert forall|node: NodeId, v: u64|
        c.lacks_placement(node, v) implies #[trigger] r.lacks_placement(node, v) by {
        assert(r.nodes[node as int].placement_version == c.nodes[node as int].placement_version);
    }
    if c.on_record() {
        assert(r.history[c.history.len() as int] == t);
        assert(r.committed_at(ts));
        assert forall|x: Ts| c.committed_at(x) implies #[trigger] r.committed_at(x) by {
            let h = choose|h: int|
                0 <= h < c.history.len() && (#[trigger] c.history[h]).commit_ts == x;
            assert(r.history[h] == c.history[h]);
        }
        assert(r.committed_at(r.max_applied) || r.max_applied == 0);
        assert forall|u: TxnId| #[trigger] r.has_committed(u) implies r.committed_at(
            r.decisions[u]->Committed_0,
        ) by {
            if c.has_committed(u) {
                assert(c.decisions.contains_key(u));
                assert(c.committed_at(c.decisions[u]->Committed_0));
            }
        }
        assert forall|h: int, k: Key|
            0 <= h < r.history.len() && #[trigger] r.history[h].writes.contains_key(
                k,
            ) implies r.history[h].writes[k] < r.next_value by {
            if h < c.history.len() {
                assert(c.history[h].writes.contains_key(k));
            } else {
                assert(t.writes.contains_key(k));
            }
        }
        assert forall|e: int, j: int|
            0 <= e < r.commit_log.len() && 0 <= j
                < r.commit_log[e].writes.len() implies #[trigger] r.is_logged_write(e, j) by {
            let (k, v) = r.commit_log[e].writes[j];
            lemma_timeline_grows(c.history, t, k);
            if e < c.commit_log.len() {
                assert(r.commit_log[e] == c.commit_log[e]);
                assert(c.is_logged_write(e, j));
                preservation::lemma_timeline_points(c.history, k);
                let h = choose|h: int|
                    0 <= h < c.history.len() && (#[trigger] c.history[h]).commit_ts
                        == c.commit_log[e].ts && c.history[h].writes.contains_key(k);
                assert(c.history[h].commit_ts != ts);
            } else {
                lemma_entries(c.num_partitions, ts, t.writes, e - c.commit_log.len(), j);
            }
        }
        assert forall|i: int| 0 <= i < r.nodes.len() implies #[trigger] r.mirrors(
            i,
            r.nodes[i].cursor,
        ) by {
            assert(c.mirrors(i, c.nodes[i].cursor));
            assert(c.nodes[i].cursor <= c.commit_log.len());
            lemma_same_mirrors(c, r, i);
        }
        assert forall|i: int, u: TxnId|
            0 <= i < r.nodes.len() && #[trigger] r.nodes[i].coordinating.contains_key(
                u,
            ) implies r.tied(u, r.nodes[i].coordinating[u].writes) by {
            assert(c.nodes[i].coordinating.contains_key(u));
            assert(c.tied(u, c.nodes[i].coordinating[u].writes));
            assert(r.tied(u, c.nodes[i].coordinating[u].writes));
        }
    }
}

proof fn lemma_commit_tied(
    c: ClusterState,
    r: ClusterState,
    t: TxnState,
    u: TxnId,
    writes: Map<Key, Value>,
)
    requires
        same_nodes(c, r),
        r.history == c.history.push(t),
        r.next_txn >= c.next_txn,
        r.next_value >= c.next_value,
        c.keeps_decisions(r),
        c.tied(u, writes),
        !r.has_committed(u) ==> apart(t.writes, writes),
    ensures
        r.tied(u, writes),
{
    assert forall|i: int|
        0 <= i < r.nodes.len() && #[trigger] r.nodes[i].coordinating.contains_key(
            u,
        ) implies r.nodes[i].coordinating[u].writes == writes by {
        assert(c.nodes[i].coordinating.contains_key(u));
    }
    assert forall|i: int, x: TxnId|
        0 <= i < r.nodes.len() && x != u && #[trigger] r.nodes[i].coordinating.contains_key(
            x,
        ) implies apart(r.nodes[i].coordinating[x].writes, writes) by {
        assert(c.nodes[i].coordinating.contains_key(x));
    }
    if !r.has_committed(u) {
        assert(!c.has_committed(u)) by {
            if c.has_committed(u) {
                assert(c.decisions.contains_key(u));
            }
        }
        assert forall|h: int| 0 <= h < r.history.len() implies apart(
            (#[trigger] r.history[h]).writes,
            writes,
        ) by {
            if h < c.history.len() {
                assert(r.history[h] == c.history[h]);
                assert(apart(c.history[h].writes, writes));
            }
        }
    }
}

/// The values that keys are numbered with.
pub proof fn lemma_numbered_values(keys: Seq<Key>, first: Value)
    requires
        first + keys.len() <= u64::MAX,
    ensures
        forall|k: Key| #[trigger]
            state::numbered(keys, first).contains_key(k) ==> first <= state::numbered(keys, first)[k]
                < first + keys.len(),
    decreases keys.len(),
{
    if keys.len() > 0 {
        let head = keys.drop_last();
        lemma_numbered_values(head, first);
        assert forall|k: Key| #[trigger] state::numbered(keys, first).contains_key(k) implies first
            <= state::numbered(keys, first)[k] < first + keys.len() by {
            if k != keys.last() {
                assert(state::numbered(head, first).contains_key(k));
            }
        }
    }
}

/// A step in which `node` begins to coordinate a transaction with new values.
pub proof fn lemma_begin_step(
    c: ClusterState,
    r: ClusterState,
    node: NodeId,
    writes: Map<Key, Value>,
)
    requires
        c.inv(),
        node < c.num_partitions,
        c.next_txn < u64::MAX,
        r.num_partitions == c.num_partitions,
        r.nodes.len() == c.nodes.len(),
        forall|i: int|
            0 <= i < c.nodes.len() && i != node ==> #[trigger] r.nodes[i] == c.nodes[i],
        r.nodes[node as int] == (NodeState {
            coordinating: r.nodes[node as int].coordinating,
            ..c.nodes[node as int]
        }),
        r.nodes[node as int].coordinating == c.nodes[node as int].coordinating.insert(
            c.next_txn,
            r.nodes[node as int].coordinating[c.next_txn],
        ),
        r.nodes[node as int].coordinating[c.next_txn].writes == writes,
        r.max_applied == c.max_applied,
        r.placement_version == c.placement_version,
        r.history == c.history,
        r.commit_log == c.commit_log,
        r.committed_floor == c.committed_floor,
        r.next_txn == c.next_txn + 1,
        r.next_value >= c.next_value,
        r.decisions == c.decisions,
        forall|k: Key| #[trigger]
            writes.contains_key(k) ==> c.next_value <= writes[k] < r.next_value,
    ensures
        c.leads_to(r),
{
    let n = node as int;
    let txn = c.next_txn;
    // Without the new transaction it is a step that commits nothing.
    let b = ClusterState { nodes: c.nodes, ..r };
    assert(same_nodes(c, b));
    lemma_quiet_step(c, b);
    assert forall|t: TxnId, w: Map<Key, Value>| c.tied(t, w) implies #[trigger] r.tied(t, w) by {
        assert(b.tied(t, w));
        assert(t < txn);
        assert forall|i: int|
            0 <= i < r.nodes.len() && #[trigger] r.nodes[i].coordinating.contains_key(
                t,
            ) implies r.nodes[i].coordinating[t].writes == w by {
            assert(b.nodes[i].coordinating.contains_key(t));
        }
        assert forall|i: int, u: TxnId|
            0 <= i < r.nodes.len() && u != t && #[trigger] r.nodes[i].coordinating.contains_key(
                u,
            ) implies apart(r.nodes[i].coordinating[u].writes, w) by {
            if i == n && u == txn {
                assert forall|j: Key, k: Key| #[trigger]
                    writes.contains_key(j) && #[trigger] w.contains_key(k) implies writes[j]
                    != w[k] by {
                    assert(w[k] < c.next_value);
                }
            } else {
                assert(b.nodes[i].coordinating.contains_key(u));
            }
        }
    }
    assert forall|m: NodeId, v: u64| c.lacks_placement(m, v) implies #[trigger] r.lacks_placement(
        m,
        v,
    ) by {
        assert(b.lacks_placement(m, v));
        assert(r.nodes[m as int].placement_version == c.nodes[m as int].placement_version);
    }
    if c.on_record() {
        assert(b.on_record());
        assert forall|t: TxnId| #[trigger] r.has_committed(t) implies r.committed_at(
            r.decisions[t]->Committed_0,
        ) by {
            assert(b.has_committed(t));
            let ts = b.decisions[t]->Committed_0;
            let h = choose|h: int|
                0 <= h < b.history.len() && (#[trigger] b.history[h]).commit_ts == ts;
            assert(r.history[h].commit_ts == ts);
        }
        if r.max_applied != 0 {
            let h = choose|h: int|
                0 <= h < b.history.len() && (#[trigger] b.history[h]).commit_ts == b.max_applied;
            assert(r.history[h].commit_ts == r.max_applied);
        }
        assert forall|h: int, k: Key|
            0 <= h < r.history.len() && #[trigger] r.history[h].writes.contains_key(
                k,
            ) implies r.history[h].writes[k] < r.next_value by {
            assert(b.history[h].writes.contains_key(k));
        }
        assert forall|e: int, j: int|
            0 <= e < r.commit_log.len() && 0 <= j
                < r.commit_log[e].writes.len() implies #[trigger] r.is_logged_write(e, j) by {
            assert(b.is_logged_write(e, j));
        }
        assert forall|i: int| 0 <= i < r.nodes.len() implies #[trigger] r.mirrors(
            i,
            r.nodes[i].cursor,
        ) by {
            assert(c.mirrors(i, c.nodes[i].cursor));
            assert(c.nodes[i].cursor <= c.commit_log.len());
            lemma_same_mirrors(c, r, i);
        }
        assert(r.tied(txn, writes)) by {
            assert forall|i: int|
                0 <= i < r.nodes.len() && #[trigger] r.nodes[i].coordinating.contains_key(
                    txn,
                ) implies r.nodes[i].coordinating[txn].writes == writes by {
                if i != n {
                    assert(c.nodes[i].coordinating.contains_key(txn));
                }
            }
            assert forall|i: int, u: TxnId|
                0 <= i < r.nodes.len() && u != txn
                    && #[trigger] r.nodes[i].coordinating.contains_key(u) implies apart(
                r.nodes[i].coordinating[u].writes,
                writes,
            ) by {
                assert(c.nodes[i].coordinating.contains_key(u));
                let other = c.nodes[i].coordinating[u].writes;
                assert(c.tied(u, other));
                assert forall|j: Key, k: Key| #[trigger]
                    other.contains_key(j) && #[trigger] writes.contains_key(k) implies other[j]
                    != writes[k] by {
                    assert(other[j] < c.next_value);
                }
            }
            assert forall|h: int| 0 <= h < r.history.len() implies apart(
                (#[trigger] r.history[h]).writes,
                writes,
            ) by {
                let other = c.history[h].writes;
                assert forall|j: Key, k: Key| #[trigger]
                    other.contains_key(j) && #[trigger] writes.contains_key(k) implies other[j]
                    != writes[k] by {
                    assert(c.history[h].writes.contains_key(j));
                }
            }
        }
        assert forall|i: int, t: TxnId|
            0 <= i < r.nodes.len() && #[trigger] r.nodes[i].coordinating.contains_key(
                t,
            ) implies r.tied(t, r.nodes[i].coordinating[t].writes) by {
            if !(i == n && t == txn) {
                assert(c.nodes[i].coordinating.contains_key(t));
                assert(c.tied(t, c.nodes[i].coordinating[t].writes));
                assert(r.tied(t, c.nodes[i].coordinating[t].writes));
            }
        }
    }
}

/// A new placement version.
pub proof fn lemma_bump_step(c: ClusterState, refreshed: Seq<NodeId>)
    requires
        c.inv(),
        c.placement_version < u64::MAX,
    ensures
        c.leads_to(c.placement_bumped(refreshed)),
{
    let r = c.placement_bumped(refreshed);
    let v1 = r.placement_version;
    let b = ClusterState { placement_version: c.placement_version, nodes: c.nodes, ..r };
    assert(same_nodes(c, b));
    lemma_quiet_step(c, b);
    assert forall|i: int| 0 <= i < r.nodes.len() implies #[trigger] r.nodes[i] == (NodeState {
        placement_version: r.nodes[i].placement_version,
        ..c.nodes[i]
    }) by {}
    assert forall|t: TxnId, w: Map<Key, Value>| c.tied(t, w) implies #[trigger] r.tied(t, w) by {
        lemma_quiet_tied_nodes(c, r, t, w);
    }
    if c.on_record() {
        assert(b.on_record());
        assert forall|t: TxnId| #[trigger] r.has_committed(t) implies r.committed_at(
            r.decisions[t]->Committed_0,
        ) by {
            assert(c.has_committed(t));
            let ts = c.decisions[t]->Committed_0;
            let h = choose|h: int|
                0 <= h < c.history.len() && (#[trigger] c.history[h]).commit_ts == ts;
            assert(r.history[h].commit_ts == ts);
        }
        if r.max_applied != 0 {
            let h = choose|h: int|
                0 <= h < c.history.len() && (#[trigger] c.history[h]).commit_ts == c.max_applied;
            assert(r.history[h].commit_ts == r.max_applied);
        }
        assert forall|h: int, k: Key|
            0 <= h < r.history.len() && #[trigger] r.history[h].writes.contains_key(
                k,
            ) implies r.history[h].writes[k] < r.next_value by {
            assert(c.history[h].writes.contains_key(k));
        }
        assert forall|e: int, j: int|
            0 <= e < r.commit_log.len() && 0 <= j
                < r.commit_log[e].writes.len() implies #[trigger] r.is_logged_write(e, j) by {
            assert(c.is_logged_write(e, j));
        }
        assert forall|i: int| 0 <= i < r.nodes.len() implies #[trigger] r.mirrors(
            i,
            r.nodes[i].cursor,
        ) by {
            assert(c.mirrors(i, c.nodes[i].cursor));
            assert(c.nodes[i].cursor <= c.commit_log.len());
            lemma_same_mirrors(c, r, i);
        }
        assert forall|i: int, t: TxnId|
            0 <= i < r.nodes.len() && #[trigger] r.nodes[i].coordinating.contains_key(
                t,
            ) implies r.tied(t, r.nodes[i].coordinating[t].writes) by {
            assert(c.nodes[i].coordinating.contains_key(t));
            assert(c.tied(t, c.nodes[i].coordinating[t].writes));
            assert(r.tied(t, c.nodes[i].coordinating[t].writes));
        }
    }
    assert forall|m: NodeId, v: u64| c.lacks_placement(m, v) implies #[trigger] r.lacks_placement(
        m,
        v,
    ) by {
        assert(c.nodes[m as int].placement_version != v);
        assert(r.nodes[m as int].placement_version == v1 || r.nodes[m as int].placement_version
            == c.nodes[m as int].placement_version);
    }
}

proof fn lemma_quiet_tied_nodes(c: ClusterState, r: ClusterState, t: TxnId, w: Map<Key, Value>)
    requires
        r.nodes.len() == c.nodes.len(),
        forall|i: int|
            0 <= i < c.nodes.len() ==> (#[trigger] r.nodes[i]).coordinating == c.nodes[i].coordinating,
        r.history == c.history,
        r.next_txn == c.next_txn,
        r.next_value == c.next_value,
        r.decisions == c.decisions,
        c.tied(t, w),
    ensures
        r.tied(t, w),
{
    assert forall|i: int|
        0 <= i < r.nodes.len() && #[trigger] r.nodes[i].coordinating.contains_key(
            t,
        ) implies r.nodes[i].coordinating[t].writes == w by {
        assert(c.nodes[i].coordinating.contains_key(t));
    }
    assert forall|i: int, u: TxnId|
        0 <= i < r.nodes.len() && u != t && #[trigger] r.nodes[i].coordinating.contains_key(
            u,
        ) implies apart(r.nodes[i].coordinating[u].writes, w) by {
        assert(c.nodes[i].coordinating.contains_key(u));
    }
    if !r.has_committed(t) {
        assert(!c.has_committed(t));
        assert forall|h: int| 0 <= h < r.history.len() implies apart(
            (#[trigger] r.history[h]).writes,
            w,
        ) by {
            assert(apart(c.history[h].writes, w));
        }
    }
}

/// What a replayed list of writes leaves in a replica.
proof fn lemma_replica_with(replica: Map<Key, (Ts, Value)>, ts: Ts, writes: Seq<(Key, Value)>)
    ensures
        ({
            let r = state::replica_with(replica, ts, writes);
            &&& forall|k: Key| #[trigger]
                r.contains_key(k) ==> (replica.contains_key(k) && r[k] == replica[k]) || (r[k].0
                    == ts && writes.contains((k, r[k].1)))
            &&& forall|k: Key| #[trigger]
                replica.contains_key(k) ==> r.contains_key(k) && r[k].0 >= replica[k].0
            &&& forall|j: int|
                0 <= j < writes.len() ==> r.contains_key((#[trigger] writes[j]).0)
                    && r[writes[j].0].0 >= ts
        }),
    decreases writes.len(),
{
    if writes.len() > 0 {
        let head = writes.drop_last();
        lemma_replica_with(replica, ts, head);
        let p = state::replica_with(replica, ts, head);
        let r = state::replica_with(replica, ts, writes);
        let (key, v) = writes.last();
        assert(writes[writes.len() - 1] == (key, v));
        assert forall|k: Key| #[trigger] r.contains_key(k) implies (replica.contains_key(k) && r[k]
            == replica[k]) || (r[k].0 == ts && writes.contains((k, r[k].1))) by {
            if p.contains_key(k) && r[k] == p[k] {
                if !(replica.contains_key(k) && p[k] == replica[k]) {
                    let j = choose|j: int| 0 <= j < head.len() && head[j] == (k, p[k].1);
                    assert(writes[j] == (k, r[k].1));
                }
            }
        }
        assert forall|k: Key| #[trigger] replica.contains_key(k) implies r.contains_key(k) && r[k].0
            >= replica[k].0 by {
            assert(p.contains_key(k));
        }
        assert forall|j: int| 0 <= j < writes.len() implies r.contains_key((#[trigger] writes[j]).0)
            && r[writes[j].0].0 >= ts by {
            if j < head.len() {
                assert(head[j] == writes[j]);
                assert(p.contains_key(head[j].0));
            }
        }
    }
}

/// Replaying the next entry.
proof fn lemma_mirrors_next(c: ClusterState, node: NodeId, idx: nat)
    requires
        node < c.nodes.len(),
        idx < c.commit_log.len(),
        c.mirrors(node as int, idx),
    ensures
        c.replayed_one(node, idx as int).mirrors(node as int, idx + 1),
        c.replayed_one(node, idx as int).commit_log == c.commit_log,
{
    let r = c.replayed_one(node, idx as int);
    let e = c.commit_log[idx as int];
    let i = node as int;
    let before = c.nodes[i].replica;
    let after = r.nodes[i].replica;
    lemma_replica_with(before, e.ts, e.writes);
    assert forall|k: Key| #[trigger] after.contains_key(k) implies exists|x: int|
        0 <= x < idx + 1 && #[trigger] r.brought(x, i, k, after[k].0, after[k].1) by {
        if before.contains_key(k) && after[k] == before[k] {
            let x = choose|x: int|
                0 <= x < idx && #[trigger] c.brought(x, i, k, before[k].0, before[k].1);
            assert(r.brought(x, i, k, after[k].0, after[k].1));
        } else {
            assert(r.brought(idx as int, i, k, after[k].0, after[k].1));
        }
    }
    assert forall|x: int, j: int|
        0 <= x < idx + 1 && r.commit_log[x].source != i && 0 <= j
            < r.commit_log[x].writes.len() implies ({
        let k = (#[trigger] r.commit_log[x].writes[j]).0;
        after.contains_key(k) && after[k].0 >= r.commit_log[x].ts
    }) by {
        if x < idx {
            let k = c.commit_log[x].writes[j].0;
            assert(before.contains_key(k));
        }
    }
}

/// Replaying a range of entries, for the node that replays.
proof fn lemma_mirrors_range(c: ClusterState, node: NodeId, from: nat, to: nat)
    requires
        node < c.nodes.len(),
        from <= to <= c.commit_log.len(),
        c.mirrors(node as int, from),
    ensures
        c.replayed_range(node, from, to).mirrors(node as int, to),
    decreases to,
{
    if to > from {
        let m = (to - 1) as nat;
        lemma_mirrors_range(c, node, from, m);
        lemma_range_frame(c, node, from, m);
        let p = c.replayed_range(node, from, m);
        lemma_mirrors_next(p, node, m);
    }
}

/// What replaying leaves alone.
proof fn lemma_range_frame(c: ClusterState, node: NodeId, from: nat, to: nat)
    requires
        node < c.nodes.len(),
        to <= c.commit_log.len(),
    ensures
        ({
            let r = c.replayed_range(node, from, to);
            &&& r == (ClusterState {
                nodes: r.nodes,
                frontier_samples: r.frontier_samples,
                subs: r.subs,
                ..c
            })
            &&& r.nodes.len() == c.nodes.len()
            &&& forall|i: int|
                0 <= i < c.nodes.len() && i != node ==> #[trigger] r.nodes[i] == c.nodes[i]
            &&& r.nodes[node as int] == (NodeState {
                replica: r.nodes[node as int].replica,
                frontier: r.nodes[node as int].frontier,
                ..c.nodes[node as int]
            })
        }),
    decreases to,
{
    if to > from {
        lemma_range_frame(c, node, from, (to - 1) as nat);
    }
}

/// A step that moves nothing but replicas.
pub proof fn lemma_replay_step(c: ClusterState, node: NodeId)
    requires
        c.inv(),
        node < c.num_partitions,
    ensures
        c.leads_to(c.replayed(node)),
{
    let n = node as int;
    let len = c.commit_log.len();
    let p = c.replayed_range(node, c.node(node).cursor, len);
    let r = c.replayed(node);
    lemma_range_frame(c, node, c.node(node).cursor, len);
    assert(c.nodes[n].cursor <= len);
    assert forall|i: int| 0 <= i < c.nodes.len() implies (#[trigger] r.nodes[i]).coordinating
        == c.nodes[i].coordinating && r.nodes[i].placement_version
        == c.nodes[i].placement_version by {}
    assert forall|t: TxnId, w: Map<Key, Value>| c.tied(t, w) implies #[trigger] r.tied(t, w) by {
        lemma_quiet_tied_nodes(c, r, t, w);
    }
    assert forall|m: NodeId, v: u64| c.lacks_placement(m, v) implies #[trigger] r.lacks_placement(
        m,
        v,
    ) by {
        assert(r.nodes[m as int].placement_version == c.nodes[m as int].placement_version);
    }
    if c.on_record() {
        assert forall|t: TxnId| #[trigger] r.has_committed(t) implies r.committed_at(
            r.decisions[t]->Committed_0,
        ) by {
            assert(c.has_committed(t));
            let ts = c.decisions[t]->Committed_0;
            let h = choose|h: int|
                0 <= h < c.history.len() && (#[trigger] c.history[h]).commit_ts == ts;
            assert(r.history[h].commit_ts == ts);
        }
        if r.max_applied != 0 {
            let h = choose|h: int|
                0 <= h < c.history.len() && (#[trigger] c.history[h]).commit_ts == c.max_applied;
            assert(r.history[h].commit_ts == r.max_applied);
        }
        assert forall|h: int, k: Key|
            0 <= h < r.history.len() && #[trigger] r.history[h].writes.contains_key(
                k,
            ) implies r.history[h].writes[k] < r.next_value by {
            assert(c.history[h].writes.contains_key(k));
        }
        assert forall|e: int, j: int|
            0 <= e < r.commit_log.len() && 0 <= j
                < r.commit_log[e].writes.len() implies #[trigger] r.is_logged_write(e, j) by {
            assert(c.is_logged_write(e, j));
        }
        assert(c.mirrors(n, c.nodes[n].cursor));
        lemma_mirrors_range(c, node, c.node(node).cursor, len);
        assert forall|i: int| 0 <= i < r.nodes.len() implies #[trigger] r.mirrors(
            i,
            r.nodes[i].cursor,
        ) by {
            if i == n {
                let replica = p.nodes[n].replica;
                assert(r.nodes[n].replica == replica);
                assert forall|k: Key| #[trigger] replica.contains_key(k) implies exists|e: int|
                    0 <= e < len && #[trigger] r.brought(e, n, k, replica[k].0, replica[k].1) by {
                    let e = choose|e: int|
                        0 <= e < len && #[trigger] p.brought(e, n, k, replica[k].0, replica[k].1);
                    assert(r.brought(e, n, k, replica[k].0, replica[k].1));
                }
                assert forall|e: int, j: int|
                    0 <= e < len && r.commit_log[e].source != n && 0 <= j
                        < r.commit_log[e].writes.len() implies ({
                    let k = (#[trigger] r.commit_log[e].writes[j]).0;
                    replica.contains_key(k) && replica[k].0 >= r.commit_log[e].ts
                }) by {
                    let w = p.commit_log[e].writes[j];
                }
            } else {
                assert(c.mirrors(i, c.nodes[i].cursor));
                assert(c.nodes[i].cursor <= len);
                lemma_same_mirrors(c, r, i);
            }
        }
        assert forall|i: int, t: TxnId|
            0 <= i < r.nodes.len() && #[trigger] r.nodes[i].coordinating.contains_key(
                t,
            ) implies r.tied(t, r.nodes[i].coordinating[t].writes) by {
            assert(c.nodes[i].coordinating.contains_key(t));
            assert(c.tied(t, c.nodes[i].coordinating[t].writes));
            assert(r.tied(t, c.nodes[i].coordinating[t].writes));
        }
    }
}

/// A cluster that has done nothing has nothing on record.
pub proof fn lemma_fresh_record(n: u32)
    ensures
        ClusterState::fresh(n).on_record(),
{
    let c = ClusterState::fresh(n);
    assert forall|i: int| 0 <= i < c.nodes.len() implies #[trigger] c.nodes[i]
        == NodeState::fresh() by {}
}

/// A node that has consumed the whole log holds of every key the value of its
/// newest commit, if it does not own the key, and nothing of its own keys.
pub proof fn lemma_caught_up_replica(c: ClusterState, node: NodeId, key: Key)
    requires
        c.inv(),
        c.on_record(),
        node < c.num_partitions,
        c.node(node).cursor == c.commit_log.len(),
    ensures
        c.replica_of(node, key) == if c.owner(key) == node {
            None
        } else {
            c.latest(key)
        },
{
    let n = node as int;
    let replica = c.node(node).replica;
    let m = safety::timeline(c.history, key);
    assert(c.mirrors(n, c.nodes[n].cursor));
    assert(c.node(c.owner(key)).versions(key) == m);
    preservation::lemma_timeline_finite(c.history, key);
    preservation::lemma_timeline_points(c.history, key);
    if replica.contains_key(key) {
        let e = choose|e: int|
            0 <= e < c.commit_log.len() && #[trigger] c.brought(
                e,
                n,
                key,
                replica[key].0,
                replica[key].1,
            );
        let j = choose|j: int|
            0 <= j < c.commit_log[e].writes.len() && c.commit_log[e].writes[j] == (
                key,
                replica[key].1,
            );
        assert(c.is_logged_write(e, j));
        assert(m.contains_key(replica[key].0) && m[replica[key].0] == replica[key].1);
        assert(m.dom().contains(replica[key].0));
    }
    if c.owner(key) != node && !m.dom().is_empty() {
        assert(m.dom().len() > 0) by {
            if m.dom().len() == 0 {
                assert(m.dom() =~= Set::empty());
            }
        }
        let g = ordered::lemma_greatest_u64(m.dom());
        let ts = ordered::greatest_u64(m.dom());
        assert(m.contains_key(ts));
        let h = choose|h: int|
            0 <= h < c.history.len() && (#[trigger] c.history[h]).commit_ts == ts
                && c.history[h].writes.contains_key(key);
        assert(c.in_log(ts, key));
        let e = choose|e: int|
            0 <= e < c.commit_log.len() && (#[trigger] c.commit_log[e]).ts == ts
                && state::writes_key(c.commit_log[e].writes, key);
        let j = choose|j: int|
            0 <= j < c.commit_log[e].writes.len() && #[trigger] c.commit_log[e].writes[j].0 == key;
        assert(c.is_logged_write(e, j));
        let w = c.commit_log[e].writes[j];
        assert(replica.contains_key(w.0) && replica[w.0].0 >= c.commit_log[e].ts);
        assert(m.dom().contains(replica[key].0));
        assert(replica[key].0 <= ts);
    } else if c.owner(key) != node {
        if replica.contains_key(key) {
            assert(m.dom().contains(replica[key].0));
        }
    }
}

} // verus!
