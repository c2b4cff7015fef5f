//! The mathematical model of the cluster: what every operation does to its
//! state, stated over maps, sets and sequences.
use crate::network::{EnvelopeView, MsgView, NetState};
use crate::ordered;
use crate::rng::RngState;
use crate::text;
use crate::types::{Key, NodeId, SimTime, Ts, TxnId, Value};
use vstd::prelude::*;

verus! {

/// An undecided two-phase transaction is rolled back when it is older than
/// this many ticks.
pub const PREPARE_TIMEOUT: SimTime = 25;

/// Draining stops after this many ticks at the latest.
pub const QUIESCE_TICKS: u64 = 1000;

/// The outcome of a two-phase transaction, as the durable decision log has it.
#[derive(Clone, Copy, Debug, PartialEq, Eq, Structural)]
pub enum Decision {
    Committed(Ts),
    RolledBack,
}

/// A transaction a coordinator is driving.
#[verifier::ext_equal]
pub struct CoordState {
    pub begin_ts: Ts,
    pub prepare_ts: Ts,
    pub started_at: SimTime,
    pub participants: Set<NodeId>,
    pub replies_ok: Set<NodeId>,
    pub replies_bad: Set<NodeId>,
    pub reads: Map<Key, Value>,
    pub writes: Map<Key, Value>,
    pub decided: bool,
}

/// One node.
#[verifier::ext_equal]
pub struct NodeState {
    pub up: bool,
    pub placement_version: u64,
    /// Committed versions of the keys the node owns.
    pub store: Map<Key, Map<Ts, Value>>,
    /// Highest commit timestamp the node has committed as owner.
    pub commit_frontier: Ts,
    /// Replicated values of keys that other nodes own.
    pub replica: Map<Key, (Ts, Value)>,
    /// Highest timestamp replayed, for each source.
    pub frontier: Map<NodeId, Ts>,
    /// Prepared slices awaiting their decision.
    pub prepared: Map<TxnId, Seq<(Key, Value)>>,
    /// Transactions the node coordinates.
    pub coordinating: Map<TxnId, CoordState>,
    /// Number of replication-log entries consumed.
    pub cursor: nat,
}

/// One entry of the replication log.
#[verifier::ext_equal]
pub struct EntryState {
    pub source: NodeId,
    pub ts: Ts,
    pub writes: Seq<(Key, Value)>,
}

/// A committed transaction.
#[verifier::ext_equal]
pub struct TxnState {
    pub id: u64,
    pub begin_ts: Ts,
    pub commit_ts: Ts,
    pub reads: Map<Key, Value>,
    pub writes: Map<Key, Value>,
}

/// A subscription to a set of keys.
#[verifier::ext_equal]
pub struct SubState {
    pub node: NodeId,
    pub read_keys: Set<Key>,
    pub registered_ts: Ts,
    pub invalidated: bool,
}

/// The whole cluster.
#[verifier::ext_equal]
pub struct ClusterState {
    pub num_partitions: u32,
    pub nodes: Seq<NodeState>,
    pub tso_next: Ts,
    pub committed_floor: Ts,
    pub max_applied: Ts,
    pub pending_prepares: Map<Ts, Set<Key>>,
    pub placement_version: u64,
    pub decisions: Map<TxnId, Decision>,
    pub commit_log: Seq<EntryState>,
    pub next_txn: TxnId,
    pub next_value: Value,
    pub next_txn_record: u64,
    pub history: Seq<TxnState>,
    pub subs: Seq<SubState>,
    pub live_violations: Seq<Seq<char>>,
    pub trace: Seq<Seq<char>>,
    pub floor_samples: Seq<Ts>,
    pub frontier_samples: Seq<(NodeId, NodeId, Ts)>,
    pub now: SimTime,
}

/// The larger of two timestamps.
pub open spec fn max_ts(a: Ts, b: Ts) -> Ts {
    if a >= b {
        a
    } else {
        b
    }
}

/// The newest of a key's versions.
pub open spec fn newest(versions: Map<Ts, Value>) -> Option<(Ts, Value)> {
    if versions.dom().is_empty() {
        None
    } else {
        Some((ordered::greatest_u64(versions.dom()), versions[ordered::greatest_u64(versions.dom())]))
    }
}

/// The versions no newer than `ts`.
pub open spec fn up_to(versions: Map<Ts, Value>, ts: Ts) -> Map<Ts, Value> {
    versions.restrict(versions.dom().filter(|t: Ts| t <= ts))
}

/// Keys in the given order paired with consecutive values starting at `first`.
pub open spec fn numbered(keys: Seq<Key>, first: Value) -> Map<Key, Value>
    decreases keys.len(),
{
    if keys.len() == 0 {
        Map::empty()
    } else {
        numbered(keys.drop_last(), first).insert(
            keys.last(),
            (first + keys.len() - 1) as u64,
        )
    }
}

/// Replica values after a replayed list of writes at `ts`: a slot moves to a
/// write that is not older than what it holds.
pub open spec fn replica_with(
    replica: Map<Key, (Ts, Value)>,
    ts: Ts,
    writes: Seq<(Key, Value)>,
) -> Map<Key, (Ts, Value)>
    decreases writes.len(),
{
    if writes.len() == 0 {
        replica
    } else {
        let r = replica_with(replica, ts, writes.drop_last());
        let (k, v) = writes.last();
        if r.contains_key(k) && r[k].0 > ts {
            r
        } else {
            r.insert(k, (ts, v))
        }
    }
}

/// `writes` touches one of `keys`.
pub open spec fn touches(writes: Seq<(Key, Value)>, keys: Set<Key>) -> bool {
    exists|i: int| 0 <= i < writes.len() && keys.contains(#[trigger] writes[i].0)
}

/// `writes` touches `key`.
pub open spec fn writes_key(writes: Seq<(Key, Value)>, key: Key) -> bool {
    exists|i: int| 0 <= i < writes.len() && #[trigger] writes[i].0 == key
}

/// Owner partition of a key among `n` partitions.
pub open spec fn owner_among(n: u32, key: Key) -> NodeId {
    key % n
}

/// The keys of `writes` that `owner` owns.
pub open spec fn owned_keys(n: u32, writes: Map<Key, Value>, owner: NodeId) -> Set<Key> {
    writes.dom().filter(|k: Key| owner_among(n, k) == owner)
}

/// The part of `writes` that `owner` owns, in key order.
pub open spec fn slice(n: u32, writes: Map<Key, Value>, owner: NodeId) -> Seq<(Key, Value)> {
    ordered::ascending_u32(owned_keys(n, writes, owner)).map_values(|k: Key| (k, writes[k]))
}

/// The owners of a set of keys.
pub open spec fn owners(n: u32, keys: Set<Key>) -> Set<NodeId> {
    keys.map(|k: Key| owner_among(n, k))
}

/// The log entries of a commit: one per owner, owners ascending.
pub open spec fn entries(n: u32, ts: Ts, writes: Map<Key, Value>) -> Seq<EntryState> {
    ordered::ascending_u32(owners(n, writes.dom())).map_values(
        |o: NodeId| EntryState { source: o, ts, writes: slice(n, writes, o) },
    )
}

impl NodeState {
    pub open spec fn fresh() -> NodeState {
        NodeState {
            up: true,
            placement_version: 0,
            store: Map::empty(),
            commit_frontier: 0,
            replica: Map::empty(),
            frontier: Map::empty(),
            prepared: Map::empty(),
            coordinating: Map::empty(),
            cursor: 0,
        }
    }

    /// The versions of `key`.
    pub open spec fn versions(self, key: Key) -> Map<Ts, Value> {
        if self.store.contains_key(key) {
            self.store[key]
        } else {
            Map::empty()
        }
    }

    /// Some prepared slice writes `key`.
    pub open spec fn intent_on(self, key: Key) -> bool {
        exists|txn: TxnId| #[trigger]
            self.prepared.contains_key(txn) && writes_key(self.prepared[txn], key)
    }

    /// `txn` is coordinated here, undecided.
    pub open spec fn undecided(self, txn: TxnId) -> bool {
        self.coordinating.contains_key(txn) && !self.coordinating[txn].decided
    }

    /// The frontier for `source`.
    pub open spec fn frontier_of(self, source: NodeId) -> Ts {
        if self.frontier.contains_key(source) {
            self.frontier[source]
        } else {
            0
        }
    }
}

impl SubState {
    /// Invalidated by a write of `keys` at `ts`, on top of what was before.
    pub open spec fn hit_by(self, ts: Ts, touched: bool) -> SubState {
        SubState { invalidated: self.invalidated || (ts > self.registered_ts && touched), ..self }
    }
}

impl ClusterState {
    /// A cluster of `n` nodes that has done nothing yet.
    pub open spec fn fresh(n: u32) -> ClusterState {
        ClusterState {
            num_partitions: n,
            nodes: Seq::new(n as nat, |i: int| NodeState::fresh()),
            tso_next: 1,
            committed_floor: 0,
            max_applied: 0,
            pending_prepares: Map::empty(),
            placement_version: 0,
            decisions: Map::empty(),
            commit_log: seq![],
            next_txn: 1,
            next_value: 1,
            next_txn_record: 1,
            history: seq![],
            subs: seq![],
            live_violations: seq![],
            trace: seq![],
            floor_samples: seq![],
            frontier_samples: seq![],
            now: 0,
        }
    }

    /// There is a node for every partition.
    pub open spec fn staffed(self) -> bool {
        self.nodes.len() == self.num_partitions
    }

    /// There is a node for every partition, and at least one.
    pub open spec fn shaped(self) -> bool {
        &&& self.num_partitions > 0
        &&& self.staffed()
        &&& !self.pending_prepares.contains_key(0)
    }

    /// Every coordinated transaction has at most two participants, all of them
    /// nodes of the cluster.
    pub open spec fn paired(self) -> bool {
        forall|i: int, t: TxnId| #[trigger]
            self.nodes[i].coordinating.contains_key(t) && 0 <= i < self.nodes.len()
                ==> self.small_group(self.nodes[i].coordinating[t].participants)
    }

    /// At most two nodes of the cluster.
    pub open spec fn small_group(self, participants: Set<NodeId>) -> bool {
        &&& participants.finite()
        &&& participants.len() <= 2
        &&& forall|p: NodeId| participants.contains(p) ==> p < self.num_partitions
    }

    /// Owner partition of a key.
    pub open spec fn owner(self, key: Key) -> NodeId {
        owner_among(self.num_partitions, key)
    }

    pub open spec fn node(self, i: NodeId) -> NodeState {
        self.nodes[i as int]
    }

    pub open spec fn with_node(self, i: NodeId, node: NodeState) -> ClusterState {
        ClusterState { nodes: self.nodes.update(i as int, node), ..self }
    }

    /// The trace line `msg` carries the current tick in front.
    pub open spec fn traced(self, msg: Seq<char>) -> ClusterState {
        ClusterState {
            trace: self.trace.push("t="@ + text::dec_padded(self.now as nat, 4) + " "@ + msg),
            ..self
        }
    }

    /// The timestamp the oracle hands out next.
    pub open spec fn next_ts(self) -> Ts {
        max_ts(self.tso_next, (self.committed_floor + 1) as u64)
    }

    /// The oracle once it has handed out the next timestamp.
    pub open spec fn allocated(self) -> ClusterState {
        ClusterState { tso_next: (self.next_ts() + 1) as u64, ..self }
    }

    /// The largest timestamp that is fully applied and below every undecided
    /// prepare.
    pub open spec fn repeatable(self) -> Ts {
        if self.pending_prepares.dom().is_empty() {
            self.max_applied
        } else {
            let cap = (ordered::least_u64(self.pending_prepares.dom()) - 1) as u64;
            if self.max_applied <= cap {
                self.max_applied
            } else {
                cap
            }
        }
    }

    /// The committed floor moves up to the repeatable timestamp, never down.
    pub open spec fn refloored(self) -> ClusterState {
        let floor = max_ts(self.committed_floor, self.repeatable());
        ClusterState {
            committed_floor: floor,
            floor_samples: self.floor_samples.push(floor),
            ..self
        }
    }

    /// Latest committed version of `key` on its owner.
    pub open spec fn latest(self, key: Key) -> Option<(Ts, Value)> {
        newest(self.node(self.owner(key)).versions(key))
    }

    /// The replicated version of `key` on `node`.
    pub open spec fn replica_of(self, node: NodeId, key: Key) -> Option<(Ts, Value)> {
        if self.node(node).replica.contains_key(key) {
            Some(self.node(node).replica[key])
        } else {
            None
        }
    }

    /// Value of `key` as of snapshot `ts`, 0 when it had none.
    pub open spec fn value_as_of(self, key: Key, ts: Ts) -> Value {
        match newest(up_to(self.node(self.owner(key)).versions(key), ts)) {
            Some((t, v)) => v,
            None => 0,
        }
    }

    /// `key` has changed after `begin_ts`, or a prepared intent touches it.
    pub open spec fn key_conflicts(self, key: Key, begin_ts: Ts) -> bool {
        ||| (match self.latest(key) {
            Some((t, v)) => t > begin_ts,
            None => false,
        })
        ||| self.node(self.owner(key)).intent_on(key)
    }

    pub open spec fn has_conflict(self, reads: Map<Key, Value>, begin_ts: Ts) -> bool {
        exists|k: Key| reads.contains_key(k) && #[trigger] self.key_conflicts(k, begin_ts)
    }

    /// An undecided prepare below `commit_ts` will write a key that was read.
    pub open spec fn pending_blocks(self, reads: Map<Key, Value>, commit_ts: Ts) -> bool {
        exists|p: Ts, k: Key|
            p < commit_ts && #[trigger] self.pending_prepares.contains_key(p)
                && #[trigger] reads.contains_key(k) && self.pending_prepares[p].contains(k)
    }

    /// Node `i` with its part of a commit in its store.
    pub open spec fn node_applied(
        self,
        i: NodeId,
        ts: Ts,
        writes: Map<Key, Value>,
    ) -> NodeState {
        let n = self.node(i);
        NodeState {
            store: Map::new(
                |k: Key|
                    n.store.contains_key(k) || (writes.contains_key(k) && self.owner(k) == i),
                |k: Key|
                    if writes.contains_key(k) && self.owner(k) == i {
                        n.versions(k).insert(ts, writes[k])
                    } else {
                        n.store[k]
                    },
            ),
            commit_frontier: if owned_keys(self.num_partitions, writes, i).is_empty() {
                n.commit_frontier
            } else {
                max_ts(n.commit_frontier, ts)
            },
            ..n
        }
    }

    /// A commit lands: the owners' stores take it, subscriptions on the owners
    /// see it, the log gets one entry per owner.
    pub open spec fn landed(self, ts: Ts, writes: Map<Key, Value>) -> ClusterState {
        ClusterState {
            nodes: Seq::new(
                self.nodes.len(),
                |i: int| self.node_applied(i as NodeId, ts, writes),
            ),
            subs: self.subs.map_values(
                |s: SubState|
                    s.hit_by(ts, touches(slice(self.num_partitions, writes, s.node), s.read_keys)),
            ),
            commit_log: self.commit_log + entries(self.num_partitions, ts, writes),
            max_applied: max_ts(self.max_applied, ts),
            ..self
        }
    }

    /// A commit lands and the floor follows.
    pub open spec fn applied(self, ts: Ts, writes: Map<Key, Value>) -> ClusterState {
        self.landed(ts, writes).refloored()
    }

    /// The history with one more committed transaction.
    pub open spec fn recorded(
        self,
        begin_ts: Ts,
        commit_ts: Ts,
        reads: Map<Key, Value>,
        writes: Map<Key, Value>,
    ) -> ClusterState {
        ClusterState {
            next_txn_record: (self.next_txn_record + 1) as u64,
            history: self.history.push(
                TxnState { id: self.next_txn_record, begin_ts, commit_ts, reads, writes },
            ),
            ..self
        }
    }

    /// `node` replays the entry at `idx` of the log.
    pub open spec fn replayed_one(self, node: NodeId, idx: int) -> ClusterState {
        let e = self.commit_log[idx];
        let n = self.node(node);
        if e.source == node {
            self
        } else {
            let exposed = max_ts(n.frontier_of(e.source), e.ts);
            ClusterState {
                nodes: self.nodes.update(
                    node as int,
                    NodeState {
                        replica: replica_with(n.replica, e.ts, e.writes),
                        frontier: n.frontier.insert(e.source, exposed),
                        ..n
                    },
                ),
                frontier_samples: self.frontier_samples.push((node, e.source, exposed)),
                subs: self.subs.map_values(
                    |s: SubState|
                        s.hit_by(e.ts, s.node == node && touches(e.writes, s.read_keys)),
                ),
                ..self
            }
        }
    }

    /// `node` replays the entries in `[from, to)`.
    pub open spec fn replayed_range(self, node: NodeId, from: nat, to: nat) -> ClusterState
        decreases to,
    {
        if to <= from {
            self
        } else {
            self.replayed_range(node, from, (to - 1) as nat).replayed_one(node, to - 1)
        }
    }

    /// `node` replays everything it has not consumed yet.
    pub open spec fn replayed(self, node: NodeId) -> ClusterState {
        let s = self.replayed_range(node, self.node(node).cursor, self.commit_log.len());
        s.with_node(node, NodeState { cursor: self.commit_log.len(), ..s.node(node) })
    }

    /// The first `m` nodes replay, those that are up and not isolated.
    pub open spec fn replicated(self, isolated: Set<NodeId>, m: nat) -> ClusterState
        decreases m,
    {
        if m == 0 {
            self
        } else {
            let s = self.replicated(isolated, (m - 1) as nat);
            let i = (m - 1) as NodeId;
            if s.node(i).up && !isolated.contains(i) {
                s.replayed(i)
            } else {
                s
            }
        }
    }

    /// A transaction whose writes fall into one partition.
    pub open spec fn single_committed(
        self,
        begin_ts: Ts,
        reads: Map<Key, Value>,
        write_keys: Set<Key>,
    ) -> ClusterState {
        let owner = self.owner(ordered::least_u32(write_keys));
        let ts = self.next_ts();
        let s1 = self.allocated();
        let keys = ordered::ascending_u32(write_keys);
        let writes = numbered(keys, self.next_value);
        if write_keys.is_empty() || !self.node(owner).up || self.has_conflict(reads, begin_ts) {
            self
        } else if s1.pending_blocks(reads, ts) {
            s1
        } else {
            ClusterState { next_value: (self.next_value + keys.len()) as u64, ..s1 }.traced(
                "commit 1P owner="@ + text::dec(owner as nat) + " begin="@ + text::dec(begin_ts as nat)
                    + " commit="@ + text::dec(ts as nat) + " keys="@ + text::list_text("["@, keys, "]"@),
            ).applied(ts, writes).recorded(begin_ts, ts, reads, writes)
        }
    }

    /// A participant answers a prepare: fenced when its placement differs or
    /// its committer is already past the timestamp.
    pub open spec fn accepts(self, to: NodeId, prepare_ts: Ts, placement_version: u64) -> bool {
        self.node(to).placement_version == placement_version && prepare_ts > self.node(
            to,
        ).commit_frontier
    }

    pub open spec fn intent_stored(
        self,
        to: NodeId,
        txn: TxnId,
        writes: Seq<(Key, Value)>,
    ) -> ClusterState {
        let n = self.node(to);
        self.with_node(to, NodeState { prepared: n.prepared.insert(txn, writes), ..n })
    }

    pub open spec fn intent_cleared(self, to: NodeId, txn: TxnId) -> ClusterState {
        let n = self.node(to);
        self.with_node(to, NodeState { prepared: n.prepared.remove(txn), ..n })
    }

    pub open spec fn with_coord(
        self,
        node: NodeId,
        txn: TxnId,
        coord: CoordState,
    ) -> ClusterState {
        let n = self.node(node);
        self.with_node(node, NodeState { coordinating: n.coordinating.insert(txn, coord), ..n })
    }

    /// `txn` is decided `d` and no longer holds the floor.
    pub open spec fn resolved(self, txn: TxnId, d: Decision, prepare_ts: Ts) -> ClusterState {
        ClusterState {
            decisions: self.decisions.insert(txn, d),
            pending_prepares: self.pending_prepares.remove(prepare_ts),
            ..self
        }
    }

    /// The undecided transactions of the first `m` nodes that are past the
    /// prepare timeout, nodes and transactions ascending.
    pub open spec fn expired(self, m: nat) -> Seq<(NodeId, TxnId)>
        decreases m,
    {
        if m == 0 {
            seq![]
        } else {
            self.expired((m - 1) as nat) + ordered::ascending_u64(
                self.expired_on((m - 1) as NodeId),
            ).map_values(|t: TxnId| ((m - 1) as NodeId, t))
        }
    }

    /// The undecided transactions of `node` that are past the prepare timeout.
    pub open spec fn expired_on(self, node: NodeId) -> Set<TxnId> {
        self.node(node).coordinating.dom().filter(
            |t: TxnId|
                {
                    let c = self.node(node).coordinating[t];
                    !c.decided && self.now - c.started_at > PREPARE_TIMEOUT
                },
        )
    }

    /// Every node that is up drops the prepared slices whose outcome is known.
    pub open spec fn recovered(self) -> ClusterState {
        ClusterState {
            nodes: self.nodes.map_values(
                |n: NodeState|
                    if n.up {
                        NodeState { prepared: n.prepared.remove_keys(self.decisions.dom()), ..n }
                    } else {
                        n
                    },
            ),
            ..self
        }
    }

    /// The prepare timestamps of the undecided transactions `node` coordinates.
    pub open spec fn abandoned_prepares(self, node: NodeId) -> Set<Ts> {
        self.node(node).coordinating.dom().filter(
            |t: TxnId| self.node(node).undecided(t),
        ).map(|t: TxnId| self.node(node).coordinating[t].prepare_ts)
    }

    /// A crash loses the volatile coordinator state; what was undecided is
    /// rolled back and releases the floor.
    pub open spec fn crashed(self, node: NodeId) -> ClusterState {
        let n = self.node(node);
        if !n.up {
            self
        } else {
            ClusterState {
                nodes: self.nodes.update(
                    node as int,
                    NodeState { up: false, coordinating: Map::empty(), ..n },
                ),
                decisions: Map::new(
                    |t: TxnId| self.decisions.contains_key(t) || n.undecided(t),
                    |t: TxnId|
                        if self.decisions.contains_key(t) {
                            self.decisions[t]
                        } else {
                            Decision::RolledBack
                        },
                ),
                pending_prepares: self.pending_prepares.remove_keys(
                    self.abandoned_prepares(node),
                ),
                ..self
            }.refloored().traced("crash node="@ + text::dec(node as nat))
        }
    }

    pub open spec fn restarted(self, node: NodeId) -> ClusterState {
        let n = self.node(node);
        if n.up {
            self
        } else {
            self.with_node(node, NodeState { up: true, ..n }).traced(
                "restart node="@ + text::dec(node as nat),
            )
        }
    }

    /// The first `m` nodes restarted, ascending.
    pub open spec fn restarted_all(self, m: nat) -> ClusterState
        decreases m,
    {
        if m == 0 {
            self
        } else {
            self.restarted_all((m - 1) as nat).restarted((m - 1) as NodeId)
        }
    }

    /// A new placement version, known to the `refreshed` nodes only.
    pub open spec fn placement_bumped(self, refreshed: Seq<NodeId>) -> ClusterState {
        let v = (self.placement_version + 1) as u64;
        ClusterState {
            placement_version: v,
            nodes: Seq::new(
                self.nodes.len(),
                |i: int|
                    if refreshed.contains(i as NodeId) {
                        NodeState { placement_version: v, ..self.nodes[i] }
                    } else {
                        self.nodes[i]
                    },
            ),
            ..self
        }.traced(
            "placement bump -> v"@ + text::dec(v as nat) + " refreshed="@ + text::list_text(
                "["@,
                refreshed,
                "]"@,
            ),
        )
    }

    /// A log entry after `ts` touches one of `keys`.
    pub open spec fn stale_since(self, ts: Ts, keys: Set<Key>) -> bool {
        exists|i: int|
            0 <= i < self.commit_log.len() && (#[trigger] self.commit_log[i]).ts > ts && touches(
                self.commit_log[i].writes,
                keys,
            )
    }

    /// A new subscription, invalid from the start when the log already holds a
    /// write above its snapshot.
    pub open spec fn subscribed(self, node: NodeId, keys: Set<Key>) -> ClusterState {
        let stale = self.stale_since(self.committed_floor, keys);
        let t = self.traced(
            "subscribe sub="@ + text::dec(self.subs.len()) + " node="@ + text::dec(node as nat) + " keys="@
                + text::list_text("{"@, ordered::ascending_u32(keys), "}"@) + " registered_ts="@ + text::dec(
                self.committed_floor as nat,
            ) + " stale="@ + (if stale {
                "true"@
            } else {
                "false"@
            }),
        );
        ClusterState {
            subs: t.subs.push(
                SubState {
                    node,
                    read_keys: keys,
                    registered_ts: self.committed_floor,
                    invalidated: stale,
                },
            ),
            ..t
        }
    }

    /// `e` goes to a node of the cluster, and so does the answer to a prepare.
    pub open spec fn has_recipient(self, e: EnvelopeView) -> bool {
        &&& e.to < self.num_partitions
        &&& match e.msg {
            MsgView::Prepare { coordinator, .. } => coordinator < self.num_partitions,
            _ => true,
        }
    }

    /// Keys in use: four per partition.
    pub open spec fn key_space(self) -> int {
        self.num_partitions * 4
    }

    /// No node holds a prepared slice.
    pub open spec fn nothing_prepared(self) -> bool {
        forall|i: int| 0 <= i < self.nodes.len() ==> (#[trigger] self.nodes[i]).prepared.dom().is_empty()
    }

    /// Every node has consumed the whole log.
    pub open spec fn caught_up(self) -> bool {
        forall|i: int|
            0 <= i < self.nodes.len() ==> (#[trigger] self.nodes[i]).cursor
                == self.commit_log.len()
    }
}

/// The cluster, the transport and the generator together.
pub struct World {
    pub cluster: ClusterState,
    pub net: NetState,
    pub rng: RngState,
}

/// One random key of `space` keys.
pub open spec fn drawn_key(rng: RngState, space: int) -> (Key, RngState) {
    let (k, r) = rng.int_in(0, (space - 1) as u64);
    (k as Key, r)
}

/// A set of `m` random keys.
pub open spec fn drawn_keys(rng: RngState, space: int, m: nat) -> (Set<Key>, RngState)
    decreases m,
{
    if m == 0 {
        (Set::empty(), rng)
    } else {
        let (s, r) = drawn_keys(rng, space, (m - 1) as nat);
        let (k, r1) = drawn_key(r, space);
        (s.insert(k), r1)
    }
}

/// `m` random reads at snapshot `begin_ts`; the first flag tells whether every
/// owner could serve its read. Drawing stops at the first owner that is down.
pub open spec fn drawn_reads(
    cluster: ClusterState,
    rng: RngState,
    begin_ts: Ts,
    m: nat,
) -> (bool, Map<Key, Value>, RngState)
    decreases m,
{
    if m == 0 {
        (true, Map::empty(), rng)
    } else {
        let (ok, reads, r) = drawn_reads(cluster, rng, begin_ts, (m - 1) as nat);
        let (k, r1) = drawn_key(r, cluster.key_space());
        if !ok {
            (false, reads, r)
        } else if !cluster.node(cluster.owner(k)).up {
            (false, reads, r1)
        } else {
            (true, reads.insert(k, cluster.value_as_of(k, begin_ts)), r1)
        }
    }
}

impl World {
    /// `msg(p)` goes from `from` to every `p` of `tos`, in order.
    pub open spec fn sent(
        self,
        from: NodeId,
        tos: Seq<NodeId>,
        msg: spec_fn(NodeId) -> MsgView,
    ) -> World
        decreases tos.len(),
    {
        if tos.len() == 0 {
            self
        } else {
            let w = self.sent(from, tos.drop_last(), msg);
            let (net, rng, _) = w.net.send(
                w.rng,
                self.cluster.now as nat,
                from,
                tos.last(),
                msg(tos.last()),
            );
            World { cluster: self.cluster, net, rng }
        }
    }

    pub open spec fn on(self, cluster: ClusterState) -> World {
        World { cluster, ..self }
    }

    /// A transaction that writes to several partitions: the coordinator takes
    /// a prepare timestamp, holds the floor below it, and asks every
    /// participant to prepare its slice.
    pub open spec fn two_phase_begun(
        self,
        coordinator: NodeId,
        begin_ts: Ts,
        reads: Map<Key, Value>,
        write_keys: Set<Key>,
        participants: Set<NodeId>,
    ) -> World {
        let c = self.cluster;
        let txn = c.next_txn;
        let ts = c.next_ts();
        let keys = ordered::ascending_u32(write_keys);
        let parts = ordered::ascending_u32(participants);
        let writes = numbered(keys, c.next_value);
        let c1 = ClusterState {
            next_txn: (c.next_txn + 1) as u64,
            pending_prepares: c.pending_prepares.insert(ts, write_keys),
            next_value: (c.next_value + keys.len()) as u64,
            ..c.allocated()
        }.traced(
            "begin 2PC txn="@ + text::dec(txn as nat) + " coord="@ + text::dec(coordinator as nat)
                + " parts="@ + text::list_text("{"@, parts, "}"@) + " prepare_ts="@ + text::dec(ts as nat),
        ).with_coord(
            coordinator,
            txn,
            CoordState {
                begin_ts,
                prepare_ts: ts,
                started_at: c.now,
                participants,
                replies_ok: Set::empty(),
                replies_bad: Set::empty(),
                reads,
                writes,
                decided: false,
            },
        );
        if c.has_conflict(reads, begin_ts) {
            self
        } else {
            self.on(c1).sent(
                coordinator,
                parts,
                |p: NodeId|
                    MsgView::Prepare {
                        txn,
                        coordinator,
                        prepare_ts: ts,
                        writes: slice(c.num_partitions, writes, p),
                        placement_version: c.placement_version,
                    },
            )
        }
    }

    /// One transaction attempt from `origin`: one to three reads, one or two
    /// written keys, committed directly when one partition owns them all and
    /// through two-phase commit otherwise.
    pub open spec fn transacted(self, origin: NodeId) -> World {
        let c = self.cluster;
        let (n_reads, r1) = self.rng.int_in(1, 3);
        let (n_writes, r2) = r1.int_in(1, 2);
        let (ok, reads, r3) = drawn_reads(c, r2, c.committed_floor, n_reads as nat);
        let (keys, r4) = drawn_keys(r3, c.key_space(), n_writes as nat);
        let owners = owners(c.num_partitions, keys);
        if !c.node(origin).up {
            self
        } else if !ok {
            World { rng: r3, ..self }
        } else if owners.len() <= 1 {
            World {
                cluster: c.single_committed(c.committed_floor, reads, keys),
                rng: r4,
                ..self
            }
        } else {
            World { rng: r4, ..self }.two_phase_begun(
                origin,
                c.committed_floor,
                reads,
                keys,
                owners,
            )
        }
    }

    /// The coordinator decides to roll `txn` back and tells the participants.
    pub open spec fn rolled_back(
        self,
        coordinator: NodeId,
        txn: TxnId,
        participants: Set<NodeId>,
    ) -> World {
        self.sent(
            coordinator,
            ordered::ascending_u32(participants),
            |p: NodeId| MsgView::RollbackPrepared { txn },
        )
    }

    /// A participant's verdict reaches the coordinator. With every verdict
    /// positive the transaction commits, unless its reads no longer validate
    /// or an earlier undecided prepare may write them; a negative verdict rolls
    /// it back. A decided transaction stays as it is.
    pub open spec fn replied(
        self,
        coordinator: NodeId,
        txn: TxnId,
        participant: NodeId,
        ok: bool,
    ) -> World {
        let c = self.cluster;
        let known = c.node(coordinator).coordinating;
        let s0 = known[txn];
        let s1 = CoordState {
            replies_ok: if ok {
                s0.replies_ok.insert(participant)
            } else {
                s0.replies_ok
            },
            replies_bad: if ok {
                s0.replies_bad
            } else {
                s0.replies_bad.insert(participant)
            },
            ..s0
        };
        let s2 = CoordState { decided: true, ..s1 };
        let ts = s0.prepare_ts;
        let decided = c.with_coord(coordinator, txn, s2);
        if !known.contains_key(txn) {
            self
        } else if s0.decided {
            self.on(c.with_coord(coordinator, txn, s1))
        } else if s1.replies_ok == s0.participants {
            if decided.has_conflict(s0.reads, s0.begin_ts) || decided.pending_blocks(
                s0.reads,
                ts,
            ) {
                self.on(
                    decided.resolved(txn, Decision::RolledBack, ts).refloored().traced(
                        "decide ROLLBACK (read conflict) txn="@ + text::dec(txn as nat),
                    ),
                ).rolled_back(coordinator, txn, s0.participants)
            } else {
                self.on(
                    decided.resolved(txn, Decision::Committed(ts), ts).traced(
                        "decide COMMIT txn="@ + text::dec(txn as nat) + " commit_ts="@ + text::dec(ts as nat),
                    ).applied(ts, s0.writes).recorded(s0.begin_ts, ts, s0.reads, s0.writes),
                ).sent(
                    coordinator,
                    ordered::ascending_u32(s0.participants),
                    |p: NodeId| MsgView::CommitPrepared { txn, commit_ts: ts },
                )
            }
        } else if !s1.replies_bad.is_empty() {
            self.on(
                decided.resolved(txn, Decision::RolledBack, ts).traced(
                    "decide ROLLBACK txn="@ + text::dec(txn as nat),
                ).refloored(),
            ).rolled_back(coordinator, txn, s0.participants)
        } else {
            self.on(c.with_coord(coordinator, txn, s1))
        }
    }

    /// A message reaches `to`. A crashed node drops it.
    pub open spec fn delivered(self, to: NodeId, msg: MsgView) -> World {
        let c = self.cluster;
        if !c.node(to).up {
            self
        } else {
            match msg {
                MsgView::Prepare { txn, coordinator, prepare_ts, writes, placement_version } => {
                    let ok = c.accepts(to, prepare_ts, placement_version);
                    self.on(
                        if ok {
                            c.intent_stored(to, txn, writes)
                        } else {
                            c
                        },
                    ).sent(
                        to,
                        seq![coordinator],
                        |p: NodeId| MsgView::PrepareReply { txn, participant: to, ok },
                    )
                },
                MsgView::PrepareReply { txn, participant, ok } => self.replied(
                    to,
                    txn,
                    participant,
                    ok,
                ),
                MsgView::CommitPrepared { txn, commit_ts } => self.on(c.intent_cleared(to, txn)),
                MsgView::RollbackPrepared { txn } => self.on(c.intent_cleared(to, txn)),
            }
        }
    }

    /// One expired transaction is rolled back.
    pub open spec fn timed_out(self, node: NodeId, txn: TxnId) -> World {
        let c = self.cluster;
        let s = c.node(node).coordinating[txn];
        let d = if c.decisions.contains_key(txn) {
            c.decisions[txn]
        } else {
            Decision::RolledBack
        };
        self.on(
            c.with_coord(node, txn, CoordState { decided: true, ..s }).resolved(
                txn,
                d,
                s.prepare_ts,
            ).refloored().traced("watcher ROLLBACK (timeout) txn="@ + text::dec(txn as nat)),
        ).rolled_back(node, txn, s.participants)
    }

    /// The expired transactions of `list` are rolled back, in order.
    pub open spec fn all_timed_out(self, list: Seq<(NodeId, TxnId)>) -> World
        decreases list.len(),
    {
        if list.len() == 0 {
            self
        } else {
            self.all_timed_out(list.drop_last()).timed_out(list.last().0, list.last().1)
        }
    }

    /// The background processes of one tick: coordinators give up on expired
    /// transactions, participants resolve prepared slices against the decision
    /// log.
    pub open spec fn watched(self) -> World {
        let w = self.all_timed_out(self.cluster.expired(self.cluster.num_partitions as nat));
        w.on(w.cluster.recovered())
    }

    /// Envelopes delivered one after the other.
    pub open spec fn all_delivered(self, envs: Seq<EnvelopeView>) -> World
        decreases envs.len(),
    {
        if envs.len() == 0 {
            self
        } else {
            self.all_delivered(envs.drop_last()).delivered(envs.last().to, envs.last().msg)
        }
    }

    /// The tick `now` begins, and everything due is delivered.
    pub open spec fn ticked(self, now: SimTime) -> World {
        World {
            cluster: ClusterState { now, ..self.cluster },
            net: self.net.without_due(now as nat),
            rng: self.rng,
        }.all_delivered(self.net.due(now as nat))
    }

    /// Every node that is up and connected replays the log.
    pub open spec fn synced(self) -> World {
        self.on(
            self.cluster.replicated(self.net.isolated, self.cluster.num_partitions as nat),
        )
    }

    /// One draining tick: delivery, background processes, replication.
    pub open spec fn drained_once(self) -> World {
        self.ticked((self.cluster.now + 1) as u64).watched().synced()
    }

    /// Nothing is in flight, nothing is prepared, every replica is current.
    pub open spec fn is_quiet(self) -> bool {
        &&& self.net.in_flight.len() == 0
        &&& self.cluster.nothing_prepared()
        &&& self.cluster.caught_up()
    }

    /// Draining ticks until the world is quiet, `fuel` at most.
    pub open spec fn drained(self, fuel: nat) -> World
        decreases fuel,
    {
        if fuel == 0 {
            self
        } else {
            let w = self.drained_once();
            if w.is_quiet() {
                w
            } else {
                w.drained((fuel - 1) as nat)
            }
        }
    }

    /// The network healed, every node restarted, everything drained.
    pub open spec fn quiesced(self) -> World {
        World {
            cluster: self.cluster.restarted_all(self.cluster.num_partitions as nat),
            net: NetState { isolated: Set::empty(), ..self.net },
            rng: self.rng,
        }.drained(QUIESCE_TICKS as nat)
    }

    /// A subscription to one or two random keys.
    pub open spec fn subscription_added(self, node: NodeId) -> World {
        let (n, r1) = self.rng.int_in(1, 2);
        let (keys, r2) = drawn_keys(r1, self.cluster.key_space(), n as nat);
        World { cluster: self.cluster.subscribed(node, keys), rng: r2, ..self }
    }
}

} // verus!
