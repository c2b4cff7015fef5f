//! The modelled distributed cluster.
//!
//! An abstract model of a distributed transaction protocol that captures the
//! rules that matter for its safety properties:
//!
//! - a global timestamp oracle that hands out strictly increasing commit
//!   timestamps, and a monotonic committed floor;
//! - one single-writer per partition (the committer), so same-partition writes
//!   are totally ordered;
//! - optimistic concurrency control on commit: a commit is refused if a key it
//!   read changed after its snapshot;
//! - asynchronous replication of committed deltas to every other partition
//!   through a durable log;
//! - cross-partition two-phase commit with a durable decision log and crash
//!   recovery;
//! - placement-version fencing on prepare;
//! - subscription invalidation when a committed write intersects a read set.
//!
//! Durability boundary: a node crash clears volatile in-progress coordinator
//! state but preserves the committed store, the prepared redo log, the
//! replication frontiers and the decision log.
//!
//! Every operation has an exact contract over the state in [`state`].
pub mod drain;
pub mod invariants;
pub mod laws;
pub mod operations;
pub mod preservation;
pub mod record;
pub mod safety;
pub mod state;
pub mod world;

use crate::model::state::{
    ClusterState, CoordState, Decision, EntryState, NodeState, SubState, TxnState, World,
    PREPARE_TIMEOUT,
};
use crate::network::{Msg, MsgView, NetState, Network};
use crate::ordered;
use crate::rng::{Rng, RngState};
use crate::text;
use crate::types::{Key, NodeId, SimTime, Ts, TxnId, Value};
use std::collections::{BTreeMap, BTreeSet};
use vstd::prelude::*;
use vstd::string::*;

verus! {

broadcast use {vstd::std_specs::btree::group_btree_axioms, vstd::laws_cmp::group_laws_cmp};

/// A committed transaction recorded in the global history.
#[derive(Clone, Debug)]
pub struct CommittedTxn {
    pub id: u64,
    pub begin_ts: Ts,
    pub commit_ts: Ts,
    /// Key to the value observed at the snapshot (0 means "no committed value
    /// yet").
    pub reads: BTreeMap<Key, Value>,
    pub writes: BTreeMap<Key, Value>,
}

impl View for CommittedTxn {
    type V = TxnState;

    open spec fn view(&self) -> TxnState {
        TxnState {
            id: self.id,
            begin_ts: self.begin_ts,
            commit_ts: self.commit_ts,
            reads: self.reads@,
            writes: self.writes@,
        }
    }
}

/// Coordinator-side in-progress state (volatile: lost on crash).
struct Coordinating {
    begin_ts: Ts,
    prepare_ts: Ts,
    started_at: SimTime,
    participants: BTreeSet<NodeId>,
    replies_ok: BTreeSet<NodeId>,
    replies_bad: BTreeSet<NodeId>,
    reads: BTreeMap<Key, Value>,
    writes: BTreeMap<Key, Value>,
    decided: bool,
}

impl View for Coordinating {
    type V = CoordState;

    closed spec fn view(&self) -> CoordState {
        CoordState {
            begin_ts: self.begin_ts,
            prepare_ts: self.prepare_ts,
            started_at: self.started_at,
            participants: self.participants@,
            replies_ok: self.replies_ok@,
            replies_bad: self.replies_bad@,
            reads: self.reads@,
            writes: self.writes@,
            decided: self.decided,
        }
    }
}

/// Per-node state.
struct Node {
    up: bool,
    placement_version: u64,
    /// Durable, multi-version committed store this node owns: key to ascending
    /// versions, so a snapshot read can resolve the value as of any timestamp.
    store: BTreeMap<Key, BTreeMap<Ts, Value>>,
    /// Highest commit timestamp this partition has committed as owner. A
    /// prepare at or below it is fenced: the committer has already moved past.
    commit_frontier: Ts,
    /// Durable replicated values from other partitions.
    replica: BTreeMap<Key, (Ts, Value)>,
    /// Durable per-source replication frontier (monotonic).
    frontier: BTreeMap<NodeId, Ts>,
    /// Durable prepared redo log (survives crash).
    prepared: BTreeMap<TxnId, Vec<(Key, Value)>>,
    /// Volatile coordinator state (cleared on crash).
    coordinating: BTreeMap<TxnId, Coordinating>,
    /// Durable cursor into the global replication log.
    repl_cursor: usize,
}

impl View for Node {
    type V = NodeState;

    closed spec fn view(&self) -> NodeState {
        NodeState {
            up: self.up,
            placement_version: self.placement_version,
            store: self.store@.map_values(|m: BTreeMap<Ts, Value>| m@),
            commit_frontier: self.commit_frontier,
            replica: self.replica@,
            frontier: self.frontier@,
            prepared: self.prepared@.map_values(|w: Vec<(Key, Value)>| w@),
            coordinating: self.coordinating@.map_values(|c: Coordinating| c@),
            cursor: self.repl_cursor as nat,
        }
    }
}

/// One entry in the durable replication log. Retained and replayed, so a
/// partitioned or crashed node catches up on reconnect.
struct ReplEntry {
    source: NodeId,
    ts: Ts,
    writes: Vec<(Key, Value)>,
}

impl View for ReplEntry {
    type V = EntryState;

    closed spec fn view(&self) -> EntryState {
        EntryState { source: self.source, ts: self.ts, writes: self.writes@ }
    }
}

/// A client's interest in a set of keys, held on one node.
#[derive(Clone, Debug)]
pub struct Subscription {
    pub node: NodeId,
    pub read_keys: BTreeSet<Key>,
    pub registered_ts: Ts,
    pub invalidated: bool,
}

impl View for Subscription {
    type V = SubState;

    open spec fn view(&self) -> SubState {
        SubState {
            node: self.node,
            read_keys: self.read_keys@,
            registered_ts: self.registered_ts,
            invalidated: self.invalidated,
        }
    }
}

/// A monotonicity violation detected live (recorded rather than panicking, so
/// the runner can print the seed and trace).
#[derive(Clone, Debug)]
pub struct LiveViolation(pub String);

pub struct Cluster {
    num_partitions: u32,
    nodes: Vec<Node>,
    tso_next: Ts,
    committed_floor: Ts,
    max_applied: Ts,
    pending_prepares: BTreeMap<Ts, BTreeSet<Key>>,
    placement_version: u64,
    decisions: BTreeMap<TxnId, Decision>,
    commit_log: Vec<ReplEntry>,
    next_txn: TxnId,
    next_value: Value,
    next_txn_record: u64,
    pub history: Vec<CommittedTxn>,
    pub subs: Vec<Subscription>,
    pub live_violations: Vec<LiveViolation>,
    pub trace: Vec<String>,
    /// Every value the committed floor took, in order.
    pub floor_samples: Vec<Ts>,
    /// Exposed replication-frontier values `(node, source, ts)`, in order.
    pub frontier_samples: Vec<(NodeId, NodeId, Ts)>,
    now: SimTime,
}

spec fn nodes_of(q: Seq<Node>) -> Seq<NodeState> {
    q.map_values(|n: Node| n@)
}

spec fn entries_of(q: Seq<ReplEntry>) -> Seq<EntryState> {
    q.map_values(|e: ReplEntry| e@)
}

/// What a list of committed transactions says.
pub open spec fn history_of(q: Seq<CommittedTxn>) -> Seq<TxnState> {
    q.map_values(|t: CommittedTxn| t@)
}

/// What a list of subscriptions says.
pub open spec fn subs_of(q: Seq<Subscription>) -> Seq<SubState> {
    q.map_values(|s: Subscription| s@)
}

/// The texts of a list of strings.
pub open spec fn texts_of(q: Seq<String>) -> Seq<Seq<char>> {
    q.map_values(|s: String| s@)
}

/// The texts of a list of live violations.
pub open spec fn violations_of(q: Seq<LiveViolation>) -> Seq<Seq<char>> {
    q.map_values(|v: LiveViolation| v.0@)
}

impl View for Cluster {
    type V = ClusterState;

    closed spec fn view(&self) -> ClusterState {
        ClusterState {
            num_partitions: self.num_partitions,
            nodes: nodes_of(self.nodes@),
            tso_next: self.tso_next,
            committed_floor: self.committed_floor,
            max_applied: self.max_applied,
            pending_prepares: self.pending_prepares@.map_values(|s: BTreeSet<Key>| s@),
            placement_version: self.placement_version,
            decisions: self.decisions@,
            commit_log: entries_of(self.commit_log@),
            next_txn: self.next_txn,
            next_value: self.next_value,
            next_txn_record: self.next_txn_record,
            history: history_of(self.history@),
            subs: subs_of(self.subs@),
            live_violations: violations_of(self.live_violations@),
            trace: texts_of(self.trace@),
            floor_samples: self.floor_samples@,
            frontier_samples: self.frontier_samples@,
            now: self.now,
        }
    }
}

impl Node {
    fn new() -> (r: Self)
        ensures
            r@ == NodeState::fresh(),
    {
        let r = Node {
            up: true,
            placement_version: 0,
            store: BTreeMap::new(),
            commit_frontier: 0,
            replica: BTreeMap::new(),
            frontier: BTreeMap::new(),
            prepared: BTreeMap::new(),
            coordinating: BTreeMap::new(),
            repl_cursor: 0,
        };
        assert(r@ =~= NodeState::fresh());
        r
    }
}

impl Cluster {
    pub fn new(num_partitions: u32) -> (r: Self)
        ensures
            r@ == ClusterState::fresh(num_partitions),
    {
        let mut nodes: Vec<Node> = Vec::new();
        let mut i: u32 = 0;
        while i < num_partitions
            invariant
                i <= num_partitions,
                nodes@.len() == i,
                forall|j: int| 0 <= j < i ==> (#[trigger] nodes@[j])@ == NodeState::fresh(),
            decreases num_partitions - i,
        {
            nodes.push(Node::new());
            i = i + 1;
        }
        let r = Cluster {
            num_partitions,
            nodes,
            tso_next: 1,
            committed_floor: 0,
            max_applied: 0,
            pending_prepares: BTreeMap::new(),
            placement_version: 0,
            decisions: BTreeMap::new(),
            commit_log: Vec::new(),
            next_txn: 1,
            next_value: 1,
            next_txn_record: 1,
            history: Vec::new(),
            subs: Vec::new(),
            live_violations: Vec::new(),
            trace: Vec::new(),
            floor_samples: Vec::new(),
            frontier_samples: Vec::new(),
            now: 0,
        };
        assert(r@ =~= ClusterState::fresh(num_partitions));
        r
    }

    pub fn num_partitions(&self) -> (r: u32)
        ensures
            r == self@.num_partitions,
    {
        self.num_partitions
    }

    pub fn committed_floor(&self) -> (r: Ts)
        ensures
            r == self@.committed_floor,
    {
        self.committed_floor
    }

    /// Owner partition of a key: ownership is fixed at `key % P`.
    fn owner(&self, key: Key) -> (r: NodeId)
        requires
            self@.num_partitions > 0,
        ensures
            r == self@.owner(key),
            r < self@.num_partitions,
    {
        key % self.num_partitions
    }

    fn trace(&mut self, msg: String)
        ensures
            final(self)@ == old(self)@.traced(msg@),
    {
        let mut line: String = String::new();
        line.append("t=");
        text::push_dec4(&mut line, self.now);
        line.append(" ");
        line.append(msg.as_str());
        proof {
            assert(line@ =~= "t="@ + text::dec_padded(self.now as nat, 4) + " "@ + msg@);
        }
        self.trace.push(line);
        assert(self@ =~= old(self)@.traced(msg@));
    }

    fn alloc_ts(&mut self) -> (ts: Ts)
        requires
            old(self)@.tso_next < u64::MAX,
            old(self)@.committed_floor < u64::MAX - 1,
        ensures
            ts == old(self)@.next_ts(),
            final(self)@ == old(self)@.allocated(),
    {
        let above: Ts = self.committed_floor + 1;
        let ts: Ts = if self.tso_next >= above { self.tso_next } else { above };
        self.tso_next = ts + 1;
        ts
    }

    /// Recomputes the committed floor: the largest timestamp that is fully
    /// applied and not at or beyond any undecided prepared transaction.
    fn recompute_floor(&mut self)
        requires
            !old(self)@.pending_prepares.contains_key(0),
        ensures
            final(self)@ == old(self)@.refloored(),
    {
        let keys: Vec<Ts> = ordered::keys_u64(&self.pending_prepares);
        let ghost dom = self@.pending_prepares.dom();
        assert(dom =~= self.pending_prepares@.dom());
        let candidate: Ts = if keys.len() == 0 {
            proof {
                assert forall|x: Ts| !dom.contains(x) by {
                    if dom.contains(x) {
                        assert(keys@.to_set().contains(x));
                    }
                }
            }
            self.max_applied
        } else {
            proof {
                ordered::lemma_ends_u64(keys@, dom);
                assert(dom.contains(keys@[0]));
            }
            let cap: Ts = keys[0] - 1;
            if self.max_applied <= cap { self.max_applied } else { cap }
        };
        assert(candidate == self@.repeatable());
        if self.committed_floor < candidate {
            self.committed_floor = candidate;
        }
        self.floor_samples.push(self.committed_floor);
        assert(self@ =~= old(self)@.refloored());
    }

    pub fn restart(&mut self, node: NodeId)
        requires
            old(self)@.shaped(),
            node < old(self)@.num_partitions,
        ensures
            final(self)@ == old(self)@.restarted(node),
    {
        if !self.nodes[node as usize].up {
            self.nodes[node as usize].up = true;
            proof {
                assert(self@.nodes =~= old(self)@.nodes.update(
                    node as int,
                    NodeState { up: true, ..old(self)@.node(node) },
                ));
            }
            let mut msg: String = String::new();
            msg.append("restart node=");
            text::push_dec(&mut msg, node as u64);
            assert(msg@ =~= "restart node="@ + text::dec(node as nat));
            self.trace(msg);
        }
    }
}

/// The members of an owner's slice.
proof fn lemma_slice(n: u32, writes: Map<Key, Value>, owner: NodeId)
    requires
        writes.dom().finite(),
    ensures
        forall|i: int|
            #![trigger state::slice(n, writes, owner)[i]]
            0 <= i < state::slice(n, writes, owner).len() ==> {
                let (k, v) = state::slice(n, writes, owner)[i];
                writes.contains_key(k) && writes[k] == v && state::owner_among(n, k) == owner
            },
        forall|k: Key|
            writes.contains_key(k) && state::owner_among(n, k) == owner
                ==> #[trigger] state::writes_key(state::slice(n, writes, owner), k),
        forall|keys: Set<Key>| #[trigger]
            state::touches(state::slice(n, writes, owner), keys) <==> exists|k: Key|
                #![trigger writes.contains_key(k)]
                writes.contains_key(k) && state::owner_among(n, k) == owner && keys.contains(k),
{
    let owned = state::owned_keys(n, writes, owner);
    let q = ordered::ascending_u32(owned);
    let s = state::slice(n, writes, owner);
    ordered::lemma_ascending_u32(owned);
    assert forall|i: int| 0 <= i < s.len() implies {
        let (k, v) = #[trigger] s[i];
        writes.contains_key(k) && writes[k] == v && state::owner_among(n, k) == owner
    } by {
        assert(q.to_set().contains(q[i]));
    }
    assert forall|k: Key|
        writes.contains_key(k) && state::owner_among(n, k)
            == owner implies #[trigger] state::writes_key(s, k) by {
        assert(owned.contains(k));
        assert(q.to_set().contains(k));
        let i = choose|i: int| 0 <= i < q.len() && q[i] == k;
        assert(s[i].0 == k);
    }
    assert forall|keys: Set<Key>| #[trigger] state::touches(s, keys) <==> exists|k: Key|
        #![trigger writes.contains_key(k)]
        writes.contains_key(k) && state::owner_among(n, k) == owner && keys.contains(k) by {
        if state::touches(s, keys) {
            let i = choose|i: int| 0 <= i < s.len() && keys.contains(#[trigger] s[i].0);
            assert(s[i].0 == s[i].0);
            assert(writes.contains_key(s[i].0));
        }
        if exists|k: Key|
            #![trigger writes.contains_key(k)]
            writes.contains_key(k) && state::owner_among(n, k) == owner && keys.contains(k) {
            let k = choose|k: Key|
                #![trigger writes.contains_key(k)]
                writes.contains_key(k) && state::owner_among(n, k) == owner && keys.contains(k);
            assert(state::writes_key(s, k));
            let i = choose|i: int| 0 <= i < s.len() && #[trigger] s[i].0 == k;
            assert(keys.contains(s[i].0));
        }
    }
}

fn newest_version(versions: &BTreeMap<Ts, Value>) -> (r: Option<(Ts, Value)>)
    ensures
        r == state::newest(versions@),
{
    let keys: Vec<Ts> = ordered::keys_u64(versions);
    if keys.len() == 0 {
        proof {
            assert forall|x: Ts| !versions@.dom().contains(x) by {
                if versions@.dom().contains(x) {
                    assert(keys@.to_set().contains(x));
                }
            }
        }
        return None;
    }
    let t: Ts = keys[keys.len() - 1];
    proof {
        ordered::lemma_ends_u64(keys@, versions@.dom());
        assert(versions@.dom().contains(t));
    }
    match versions.get(&t) {
        Some(v) => Some((t, *v)),
        None => None,
    }
}

fn newest_up_to(versions: &BTreeMap<Ts, Value>, ts: Ts) -> (r: Option<Value>)
    ensures
        r == (match state::newest(state::up_to(versions@, ts)) {
            Some((t, v)) => Some(v),
            None => None,
        }),
{
    let keys: Vec<Ts> = ordered::keys_u64(versions);
    let ghost dom = state::up_to(versions@, ts).dom();
    let mut i: usize = keys.len();
    while i > 0 && keys[i - 1] > ts
        invariant
            i <= keys.len(),
            forall|j: int| i <= j < keys.len() ==> keys@[j] > ts,
        decreases i,
    {
        i = i - 1;
    }
    if i == 0 {
        proof {
            assert forall|x: Ts| !dom.contains(x) by {
                if dom.contains(x) {
                    assert(keys@.to_set().contains(x));
                    let k = choose|k: int| 0 <= k < keys.len() && keys@[k] == x;
                    assert(keys@[k] > ts);
                }
            }
        }
        return None;
    }
    let t: Ts = keys[i - 1];
    proof {
        assert(keys@.to_set().contains(t));
        assert(dom.contains(t));
        assert forall|x: Ts| dom.contains(x) implies x <= t by {
            assert(keys@.to_set().contains(x));
            let k = choose|k: int| 0 <= k < keys.len() && keys@[k] == x;
            assert(keys@[k] == x);
        }
        assert(ordered::is_greatest_u64(dom, t));
    }
    match versions.get(&t) {
        Some(v) => Some(*v),
        None => None,
    }
}

fn list_writes_key(writes: &Vec<(Key, Value)>, key: Key) -> (r: bool)
    ensures
        r == state::writes_key(writes@, key),
{
    let mut i: usize = 0;
    while i < writes.len()
        invariant
            i <= writes.len(),
            forall|j: int| 0 <= j < i ==> (#[trigger] writes@[j]).0 != key,
        decreases writes.len() - i,
    {
        if writes[i].0 == key {
            assert(writes@[i as int].0 == key);
            return true;
        }
        i = i + 1;
    }
    false
}

fn list_touches(writes: &Vec<(Key, Value)>, keys: &BTreeSet<Key>) -> (r: bool)
    ensures
        r == state::touches(writes@, keys@),
{
    let mut i: usize = 0;
    while i < writes.len()
        invariant
            i <= writes.len(),
            forall|j: int| 0 <= j < i ==> !keys@.contains((#[trigger] writes@[j]).0),
        decreases writes.len() - i,
    {
        if keys.contains(&writes[i].0) {
            assert(keys@.contains(writes@[i as int].0));
            return true;
        }
        i = i + 1;
    }
    false
}

impl Node {
    fn has_intent_on(&self, key: Key) -> (r: bool)
        ensures
            r == self@.intent_on(key),
    {
        let txns: Vec<TxnId> = ordered::keys_u64(&self.prepared);
        assert(self@.prepared.dom() =~= self.prepared@.dom());
        let mut i: usize = 0;
        while i < txns.len()
            invariant
                i <= txns.len(),
                txns@.to_set() == self@.prepared.dom(),
                self@.prepared.dom() == self.prepared@.dom(),
                forall|j: int|
                    0 <= j < i ==> !state::writes_key(
                        self@.prepared[#[trigger] txns@[j]],
                        key,
                    ),
            decreases txns.len() - i,
        {
            assert(txns@.to_set().contains(txns@[i as int]));
            assert(self.prepared@.contains_key(txns@[i as int]));
            match self.prepared.get(&txns[i]) {
                Some(writes) => {
                    if list_writes_key(writes, key) {
                        assert(self@.prepared.contains_key(txns@[i as int]));
                        return true;
                    }
                },
                None => {},
            }
            i = i + 1;
        }
        proof {
            assert forall|txn: TxnId| #[trigger] self@.prepared.contains_key(txn) implies !(
            state::writes_key(self@.prepared[txn], key)) by {
                assert(txns@.to_set().contains(txn));
                let j = choose|j: int| 0 <= j < txns.len() && txns@[j] == txn;
                assert(!state::writes_key(self@.prepared[txns@[j]], key));
            }
        }
        false
    }

    fn store_write(&mut self, ts: Ts, key: Key, value: Value)
        ensures
            final(self)@ == (NodeState {
                store: old(self)@.store.insert(key, old(self)@.versions(key).insert(ts, value)),
                commit_frontier: state::max_ts(old(self)@.commit_frontier, ts),
                ..old(self)@
            }),
    {
        let mut versions: BTreeMap<Ts, Value> = match self.store.remove(&key) {
            Some(m) => m,
            None => BTreeMap::new(),
        };
        assert(versions@ =~= old(self)@.versions(key));
        versions.insert(ts, value);
        self.store.insert(key, versions);
        if self.commit_frontier < ts {
            self.commit_frontier = ts;
        }
        assert(self@.store =~= old(self)@.store.insert(
            key,
            old(self)@.versions(key).insert(ts, value),
        ));
    }
}

impl Cluster {
    /// Latest committed version of `key` on its owner, by timestamp.
    fn latest(&self, key: Key) -> (r: Option<(Ts, Value)>)
        requires
            self@.num_partitions > 0,
            self@.staffed(),
        ensures
            r == self@.latest(key),
    {
        let owner: usize = self.owner(key) as usize;
        assert(self@.node(owner as NodeId) == self.nodes@[owner as int]@);
        match self.nodes[owner].store.get(&key) {
            Some(versions) => newest_version(versions),
            None => {
                assert(Map::<Ts, Value>::empty().dom() =~= Set::empty());
                None
            },
        }
    }

    /// Value of `key` as of snapshot `ts`: the greatest version with a commit
    /// timestamp no greater than `ts`, or 0 if none.
    fn value_as_of(&self, key: Key, ts: Ts) -> (r: Value)
        requires
            self@.shaped(),
        ensures
            r == self@.value_as_of(key, ts),
    {
        let owner: usize = self.owner(key) as usize;
        assert(self@.node(owner as NodeId) == self.nodes@[owner as int]@);
        match self.nodes[owner].store.get(&key) {
            Some(versions) => match newest_up_to(versions, ts) {
                Some(v) => v,
                None => 0,
            },
            None => {
                assert(state::up_to(Map::<Ts, Value>::empty(), ts).dom() =~= Set::empty());
                0
            },
        }
    }

    /// A read key conflicts if a committed write or a prepared intent touches
    /// it after the snapshot `begin_ts`.
    fn has_conflict(&self, reads: &BTreeMap<Key, Value>, begin_ts: Ts) -> (r: bool)
        requires
            self@.shaped(),
        ensures
            r == self@.has_conflict(reads@, begin_ts),
    {
        let keys: Vec<Key> = ordered::keys_u32(reads);
        let mut i: usize = 0;
        while i < keys.len()
            invariant
                i <= keys.len(),
                self@.shaped(),
                keys@.to_set() == reads@.dom(),
                forall|j: int|
                    0 <= j < i ==> !self@.key_conflicts(#[trigger] keys@[j], begin_ts),
            decreases keys.len() - i,
        {
            let key: Key = keys[i];
            assert(keys@.to_set().contains(key));
            let newer: bool = match self.latest(key) {
                Some((ts, _)) => ts > begin_ts,
                None => false,
            };
            if newer {
                assert(self@.key_conflicts(key, begin_ts));
                return true;
            }
            let owner: usize = self.owner(key) as usize;
            assert(self@.node(owner as NodeId) == self.nodes@[owner as int]@);
            if self.nodes[owner].has_intent_on(key) {
                assert(self@.key_conflicts(key, begin_ts));
                return true;
            }
            i = i + 1;
        }
        proof {
            assert forall|k: Key| reads@.contains_key(k) implies !(#[trigger] self@.key_conflicts(
                k,
                begin_ts,
            )) by {
                assert(keys@.to_set().contains(k));
                let j = choose|j: int| 0 <= j < keys.len() && keys@[j] == k;
                assert(!self@.key_conflicts(keys@[j], begin_ts));
            }
        }
        false
    }

    /// True if some undecided transaction sits below `commit_ts` and will write
    /// a key this transaction read. Committing above it would miss that write
    /// inside the read window `(begin_ts, commit_ts)`.
    fn pending_blocks_reads(&self, reads: &BTreeMap<Key, Value>, commit_ts: Ts) -> (r: bool)
        ensures
            r == self@.pending_blocks(reads@, commit_ts),
    {
        let prepares: Vec<Ts> = ordered::keys_u64(&self.pending_prepares);
        let keys: Vec<Key> = ordered::keys_u32(reads);
        let ghost pending = self@.pending_prepares;
        assert(pending.dom() =~= self.pending_prepares@.dom());
        let mut i: usize = 0;
        while i < prepares.len()
            invariant
                i <= prepares.len(),
                pending == self@.pending_prepares,
                pending.dom() == self.pending_prepares@.dom(),
                prepares@.to_set() == pending.dom(),
                keys@.to_set() == reads@.dom(),
                forall|a: int, b: int|
                    0 <= a < i && 0 <= b < keys.len() && prepares@[a] < commit_ts
                        ==> !pending[#[trigger] prepares@[a]].contains(#[trigger] keys@[b]),
            decreases prepares.len() - i,
        {
            let p: Ts = prepares[i];
            assert(prepares@.to_set().contains(p));
            assert(self.pending_prepares@.contains_key(p));
            if p < commit_ts {
                match self.pending_prepares.get(&p) {
                    Some(write_keys) => {
                        let mut j: usize = 0;
                        while j < keys.len()
                            invariant
                                j <= keys.len(),
                                keys@.to_set() == reads@.dom(),
                                pending == self@.pending_prepares,
                                pending.contains_key(p),
                                pending[p] == write_keys@,
                                p < commit_ts,
                                forall|b: int|
                                    0 <= b < j ==> !write_keys@.contains(#[trigger] keys@[b]),
                            decreases keys.len() - j,
                        {
                            if write_keys.contains(&keys[j]) {
                                assert(keys@.to_set().contains(keys@[j as int]));
                                assert(reads@.contains_key(keys@[j as int]));
                                return true;
                            }
                            j = j + 1;
                        }
                    },
                    None => {},
                }
            }
            i = i + 1;
        }
        proof {
            assert forall|p: Ts, k: Key|
                p < commit_ts && #[trigger] pending.contains_key(p)
                    && #[trigger] reads@.contains_key(k) implies !pending[p].contains(k) by {
                assert(prepares@.to_set().contains(p));
                assert(keys@.to_set().contains(k));
                let a = choose|a: int| 0 <= a < prepares.len() && prepares@[a] == p;
                let b = choose|b: int| 0 <= b < keys.len() && keys@[b] == k;
                assert(!pending[prepares@[a]].contains(keys@[b]));
            }
        }
        false
    }

    fn record_commit(
        &mut self,
        begin_ts: Ts,
        commit_ts: Ts,
        reads: BTreeMap<Key, Value>,
        writes: BTreeMap<Key, Value>,
    )
        requires
            old(self)@.next_txn_record < u64::MAX,
        ensures
            final(self)@ == old(self)@.recorded(begin_ts, commit_ts, reads@, writes@),
    {
        let id: u64 = self.next_txn_record;
        self.next_txn_record = self.next_txn_record + 1;
        self.history.push(CommittedTxn { id, begin_ts, commit_ts, reads, writes });
        assert(self@ =~= old(self)@.recorded(begin_ts, commit_ts, reads@, writes@));
    }
}

/// `writes` limited to the keys of `some`.
spec fn part(writes: Map<Key, Value>, some: Seq<Key>) -> Map<Key, Value> {
    writes.restrict(some.to_set())
}

/// One more written key reaches its owner's store.
proof fn lemma_apply_key(
    c: ClusterState,
    mid: Seq<NodeState>,
    ts: Ts,
    writes: Map<Key, Value>,
    keys: Seq<Key>,
    j: int,
)
    requires
        c.shaped(),
        ordered::sorted_u32(keys),
        keys.to_set() == writes.dom(),
        0 <= j < keys.len(),
        mid == Seq::new(
            c.nodes.len(),
            |i: int| c.node_applied(i as NodeId, ts, part(writes, keys.take(j))),
        ),
    ensures
        ({
            let o = c.owner(keys[j]);
            let n = mid[o as int];
            mid.update(
                o as int,
                NodeState {
                    store: n.store.insert(
                        keys[j],
                        n.versions(keys[j]).insert(ts, writes[keys[j]]),
                    ),
                    commit_frontier: state::max_ts(n.commit_frontier, ts),
                    ..n
                },
            ) == Seq::new(
                c.nodes.len(),
                |i: int| c.node_applied(i as NodeId, ts, part(writes, keys.take(j + 1))),
            )
        }),
{
    let k = keys[j];
    let o = c.owner(k);
    let n = mid[o as int];
    let w0 = part(writes, keys.take(j));
    let w1 = part(writes, keys.take(j + 1));
    assert(keys.to_set().contains(k));
    assert(keys.take(j + 1).to_set() =~= keys.take(j).to_set().insert(k)) by {
        assert forall|x: Key|
            keys.take(j + 1).to_set().contains(x) == keys.take(j).to_set().insert(
                k,
            ).contains(x) by {
            if keys.take(j + 1).to_set().contains(x) {
                let longer = keys.take(j + 1);
                let m = choose|m: int| 0 <= m < j + 1 && longer[m] == x;
                if m < j {
                    assert(keys.take(j)[m] == x);
                }
            }
            if keys.take(j).to_set().contains(x) {
                let m = choose|m: int| 0 <= m < j && keys.take(j)[m] == x;
                assert(keys.take(j + 1)[m] == x);
            }
            if x == k {
                assert(keys.take(j + 1)[j] == x);
            }
        }
    }
    assert(!keys.take(j).to_set().contains(k)) by {
        if keys.take(j).to_set().contains(k) {
            let m = choose|m: int| 0 <= m < j && keys.take(j)[m] == k;
            assert(keys[m] < keys[j]);
        }
    }
    assert(w1 =~= w0.insert(k, writes[k]));
    assert(!w0.contains_key(k));
    let after = mid.update(
        o as int,
        NodeState {
            store: n.store.insert(k, n.versions(k).insert(ts, writes[k])),
            commit_frontier: state::max_ts(n.commit_frontier, ts),
            ..n
        },
    );
    let want = Seq::new(c.nodes.len(), |i: int| c.node_applied(i as NodeId, ts, w1));
    assert forall|i: int| 0 <= i < c.nodes.len() implies after[i] == want[i] by {
        let ii = i as NodeId;
        let own0 = state::owned_keys(c.num_partitions, w0, ii);
        let own1 = state::owned_keys(c.num_partitions, w1, ii);
        if i == o {
            assert(own1.contains(k));
            assert(after[i].store =~= want[i].store) by {
                assert(n.versions(k) == c.node(ii).versions(k));
            }
            assert(after[i] =~= want[i]);
        } else {
            assert(own1 =~= own0);
            assert(after[i].store =~= want[i].store);
            assert(after[i] =~= want[i]);
        }
    }
    assert(after =~= want);
}

/// A commit without keys changes no node.
proof fn lemma_apply_nothing(c: ClusterState, ts: Ts, writes: Map<Key, Value>)
    requires
        c.shaped(),
    ensures
        c.nodes == Seq::new(
            c.nodes.len(),
            |i: int| c.node_applied(i as NodeId, ts, part(writes, seq![])),
        ),
{
    let w = part(writes, seq![]);
    assert forall|i: int| 0 <= i < c.nodes.len() implies c.nodes[i] == c.node_applied(
        i as NodeId,
        ts,
        w,
    ) by {
        assert(state::owned_keys(c.num_partitions, w, i as NodeId) =~= Set::empty());
        assert(c.node_applied(i as NodeId, ts, w) =~= c.nodes[i]);
    }
    assert(c.nodes =~= Seq::new(c.nodes.len(), |i: int| c.node_applied(i as NodeId, ts, w)));
}

impl Cluster {
    /// The part of `writes` that `owner` owns, in key order.
    fn slice(&self, writes: &BTreeMap<Key, Value>, owner: NodeId) -> (r: Vec<(Key, Value)>)
        requires
            self@.num_partitions > 0,
        ensures
            r@ == state::slice(self@.num_partitions, writes@, owner),
    {
        let keys: Vec<Key> = ordered::keys_u32(writes);
        let ghost n = self@.num_partitions;
        let ghost mut mine: Seq<Key> = seq![];
        let mut r: Vec<(Key, Value)> = Vec::new();
        let mut i: usize = 0;
        while i < keys.len()
            invariant
                i <= keys.len(),
                n == self@.num_partitions,
                n > 0,
                ordered::sorted_u32(keys@),
                keys@.to_set() == writes@.dom(),
                ordered::sorted_u32(mine),
                forall|a: int| 0 <= a < mine.len() && i < keys.len() ==> mine[a] < keys@[i as int],
                forall|x: Key| #[trigger]
                    mine.contains(x) <==> keys@.take(i as int).contains(x) && state::owner_among(
                        n,
                        x,
                    ) == owner,
                r@ == mine.map_values(|k: Key| (k, writes@[k])),
            decreases keys.len() - i,
        {
            let k: Key = keys[i];
            assert(keys@.to_set().contains(k));
            let ghost t0 = keys@.take(i as int);
            let ghost t1 = keys@.take(i + 1);
            proof {
                assert(t1 =~= t0.push(k));
                assert forall|x: Key| #[trigger] t1.contains(x) == (t0.contains(x) || x == k) by {
                    if t1.contains(x) {
                        let m = choose|m: int| 0 <= m < t1.len() && t1[m] == x;
                        if m < i {
                            assert(t0[m] == x);
                        }
                    }
                    if t0.contains(x) {
                        let m = choose|m: int| 0 <= m < t0.len() && t0[m] == x;
                        assert(t1[m] == x);
                    }
                    assert(t1[i as int] == k);
                }
            }
            let ghost mine0 = mine;
            if self.owner(k) == owner {
                match writes.get(&k) {
                    Some(v) => {
                        r.push((k, *v));
                    },
                    None => {},
                }
                proof {
                    mine = mine.push(k);
                    assert forall|x: Key| #[trigger]
                        mine.contains(x) <==> (mine0.contains(x) || x == k) by {
                        if mine0.contains(x) {
                            let m = choose|m: int| 0 <= m < mine0.len() && mine0[m] == x;
                            assert(mine[m] == x);
                        }
                        assert(mine[mine0.len() as int] == k);
                    }
                    assert(r@ =~= mine.map_values(|k: Key| (k, writes@[k])));
                }
            }
            i = i + 1;
            proof {
                assert(keys@.take(i as int) == t1);
                assert forall|x: Key| #[trigger]
                    mine.contains(x) <==> t1.contains(x) && state::owner_among(n, x) == owner by {
                    assert(mine0.contains(x) <==> t0.contains(x) && state::owner_among(n, x)
                        == owner);
                }
            }
        }
        proof {
            assert(keys@.take(i as int) =~= keys@);
            let owned = state::owned_keys(n, writes@, owner);
            assert forall|x: Key| mine.to_set().contains(x) == owned.contains(x) by {
                assert(mine.contains(x) <==> keys@.contains(x) && state::owner_among(n, x)
                    == owner);
                assert(keys@.contains(x) == keys@.to_set().contains(x));
            }
            assert(mine.to_set() =~= owned);
            ordered::lemma_ascending_u32(owned);
            ordered::lemma_sorted_unique_u32(mine, ordered::ascending_u32(owned));
        }
        r
    }

    /// The owners of a set of keys.
    fn owners(&self, keys: &Vec<Key>) -> (r: BTreeSet<NodeId>)
        requires
            self@.num_partitions > 0,
        ensures
            r@ == state::owners(self@.num_partitions, keys@.to_set()),
    {
        let mut r: BTreeSet<NodeId> = BTreeSet::new();
        let ghost n = self@.num_partitions;
        let mut i: usize = 0;
        while i < keys.len()
            invariant
                i <= keys.len(),
                n == self@.num_partitions,
                n > 0,
                forall|o: NodeId| #[trigger]
                    r@.contains(o) <==> exists|a: int|
                        0 <= a < i && state::owner_among(n, #[trigger] keys@[a]) == o,
            decreases keys.len() - i,
        {
            let ghost before = r@;
            r.insert(self.owner(keys[i]));
            proof {
                assert forall|o: NodeId| #[trigger]
                    r@.contains(o) <==> exists|a: int|
                        0 <= a < i + 1 && state::owner_among(n, #[trigger] keys@[a]) == o by {
                    if before.contains(o) {
                        let a = choose|a: int|
                            0 <= a < i && state::owner_among(n, #[trigger] keys@[a]) == o;
                        assert(state::owner_among(n, keys@[a]) == o);
                    }
                    assert(state::owner_among(n, keys@[i as int]) == state::owner_among(
                        n,
                        keys@[i as int],
                    ));
                }
            }
            i = i + 1;
        }
        proof {
            let want = state::owners(n, keys@.to_set());
            assert forall|o: NodeId| r@.contains(o) == want.contains(o) by {
                if r@.contains(o) {
                    let a = choose|a: int|
                        0 <= a < keys.len() && state::owner_among(n, #[trigger] keys@[a]) == o;
                    assert(keys@.to_set().contains(keys@[a]));
                }
                if want.contains(o) {
                    let k = choose|k: Key|
                        keys@.to_set().contains(k) && state::owner_among(n, k) == o;
                    let a = choose|a: int| 0 <= a < keys.len() && keys@[a] == k;
                    assert(state::owner_among(n, keys@[a]) == o);
                }
            }
            assert(r@ =~= want);
        }
        r
    }

    /// Puts every write into its owner's store.
    fn store_writes(&mut self, ts: Ts, writes: &BTreeMap<Key, Value>)
        requires
            old(self)@.shaped(),
        ensures
            final(self)@ == (ClusterState {
                nodes: Seq::new(
                    old(self)@.nodes.len(),
                    |i: int| old(self)@.node_applied(i as NodeId, ts, writes@),
                ),
                ..old(self)@
            }),
    {
        let ghost c = self@;
        let keys: Vec<Key> = ordered::keys_u32(writes);
        proof {
            lemma_apply_nothing(c, ts, writes@);
            assert(keys@.take(0) =~= seq![]);
        }
        let mut j: usize = 0;
        while j < keys.len()
            invariant
                j <= keys.len(),
                c.shaped(),
                ordered::sorted_u32(keys@),
                keys@.to_set() == writes@.dom(),
                self@ == (ClusterState {
                    nodes: Seq::new(
                        c.nodes.len(),
                        |i: int|
                            c.node_applied(
                                i as NodeId,
                                ts,
                                part(writes@, keys@.take(j as int)),
                            ),
                    ),
                    ..c
                }),
            decreases keys.len() - j,
        {
            let ghost mid = self@.nodes;
            let k: Key = keys[j];
            assert(keys@.to_set().contains(k));
            assert(mid.len() == c.nodes.len());
            assert(mid.len() == self.nodes@.len());
            let o: usize = self.owner(k) as usize;
            proof {
                lemma_apply_key(c, mid, ts, writes@, keys@, j as int);
                assert(mid[o as int] == self.nodes@[o as int]@);
            }
            match writes.get(&k) {
                Some(v) => {
                    self.nodes[o].store_write(ts, k, *v);
                },
                None => {},
            }
            j = j + 1;
            proof {
                let n = mid[o as int];
                assert(self@.nodes =~= mid.update(
                    o as int,
                    NodeState {
                        store: n.store.insert(k, n.versions(k).insert(ts, writes@[k])),
                        commit_frontier: state::max_ts(n.commit_frontier, ts),
                        ..n
                    },
                ));
            }
        }
        proof {
            assert(keys@.take(j as int) =~= keys@);
            assert(part(writes@, keys@) =~= writes@);
        }
    }

    /// Invalidates the subscriptions on `node` that a write at `ts` touches.
    fn invalidate_subs_on(&mut self, node: NodeId, ts: Ts, writes: &Vec<(Key, Value)>)
        ensures
            final(self)@ == (ClusterState {
                subs: old(self)@.subs.map_values(
                    |s: SubState|
                        s.hit_by(ts, s.node == node && state::touches(writes@, s.read_keys)),
                ),
                ..old(self)@
            }),
    {
        let ghost c = self@;
        let ghost f = |s: SubState|
            s.hit_by(ts, s.node == node && state::touches(writes@, s.read_keys));
        let mut i: usize = 0;
        while i < self.subs.len()
            invariant
                i <= self.subs.len(),
                self.subs.len() == c.subs.len(),
                f == (|s: SubState|
                    s.hit_by(ts, s.node == node && state::touches(writes@, s.read_keys))),
                forall|a: int| 0 <= a < i ==> self@.subs[a] == f(#[trigger] c.subs[a]),
                forall|a: int| i <= a < c.subs.len() ==> self@.subs[a] == #[trigger] c.subs[a],
                self@ == (ClusterState { subs: self@.subs, ..c }),
            decreases self.subs.len() - i,
        {
            let ghost mid = self@.subs;
            assert(mid[i as int] == self.subs@[i as int]@);
            assert(mid[i as int] == c.subs[i as int]);
            let hit: bool = self.subs[i].node == node && ts > self.subs[i].registered_ts
                && list_touches(writes, &self.subs[i].read_keys);
            if hit {
                self.subs[i].invalidated = true;
            }
            proof {
                assert(self@.subs =~= mid.update(i as int, f(mid[i as int])));
            }
            i = i + 1;
        }
        assert(self@.subs =~= c.subs.map_values(f));
    }

    /// Applies committed writes to the owning partitions' durable stores, fires
    /// local subscription invalidations, and appends the slices to the durable
    /// replication log for replicas to replay. The commit decision is the
    /// atomic visibility point.
    fn commit_writes_and_replicate(&mut self, commit_ts: Ts, writes: &BTreeMap<Key, Value>)
        requires
            old(self)@.shaped(),
        ensures
            final(self)@ == old(self)@.applied(commit_ts, writes@),
    {
        let ghost c = self@;
        let ghost n = c.num_partitions;
        self.store_writes(commit_ts, writes);
        let ghost c1 = self@;
        let keys: Vec<Key> = ordered::keys_u32(writes);
        let owner_set: BTreeSet<NodeId> = self.owners(&keys);
        let owners: Vec<NodeId> = ordered::members_u32(&owner_set);
        let ghost hit = |s: SubState|
            s.hit_by(
                commit_ts,
                owners@.contains(s.node) && state::touches(
                    state::slice(n, writes@, s.node),
                    s.read_keys,
                ),
            );
        let ghost entry = |o: NodeId|
            EntryState { source: o, ts: commit_ts, writes: state::slice(n, writes@, o) };
        let mut j: usize = 0;
        while j < owners.len()
            invariant
                j <= owners.len(),
                n == c.num_partitions,
                n > 0,
                ordered::sorted_u32(owners@),
                entry == (|o: NodeId|
                    EntryState { source: o, ts: commit_ts, writes: state::slice(n, writes@, o) }),
                self@ == (ClusterState {
                    nodes: c1.nodes,
                    subs: c.subs.map_values(
                        |s: SubState|
                            s.hit_by(
                                commit_ts,
                                owners@.take(j as int).contains(s.node) && state::touches(
                                    state::slice(n, writes@, s.node),
                                    s.read_keys,
                                ),
                            ),
                    ),
                    commit_log: c.commit_log + owners@.take(j as int).map_values(entry),
                    ..c
                }),
            decreases owners.len() - j,
        {
            let ghost mid = self@;
            let o: NodeId = owners[j];
            let kvs: Vec<(Key, Value)> = self.slice(writes, o);
            self.invalidate_subs_on(o, commit_ts, &kvs);
            self.commit_log.push(ReplEntry { source: o, ts: commit_ts, writes: kvs });
            proof {
                let before = owners@.take(j as int);
                let after = owners@.take(j + 1);
                assert(after =~= before.push(o));
                assert forall|x: NodeId| #[trigger]
                    after.contains(x) == (before.contains(x) || x == o) by {
                    if before.contains(x) {
                        let m = choose|m: int| 0 <= m < before.len() && before[m] == x;
                        assert(after[m] == x);
                    }
                    assert(after[j as int] == o);
                }
                assert(after.map_values(entry) =~= before.map_values(entry).push(entry(o)));
                assert(self@.commit_log =~= mid.commit_log.push(entry(o)));
                assert(self@.commit_log =~= c.commit_log + after.map_values(entry));
                assert(self@.subs =~= c.subs.map_values(
                    |s: SubState|
                        s.hit_by(
                            commit_ts,
                            after.contains(s.node) && state::touches(
                                state::slice(n, writes@, s.node),
                                s.read_keys,
                            ),
                        ),
                ));
            }
            j = j + 1;
        }
        if self.max_applied < commit_ts {
            self.max_applied = commit_ts;
        }
        proof {
            let all = owners@.take(j as int);
            assert(all =~= owners@);
            let want = c.subs.map_values(
                |s: SubState|
                    s.hit_by(
                        commit_ts,
                        state::touches(state::slice(n, writes@, s.node), s.read_keys),
                    ),
            );
            assert forall|a: int| 0 <= a < c.subs.len() implies #[trigger] self@.subs[a]
                == want[a] by {
                let s = c.subs[a];
                lemma_slice(n, writes@, s.node);
                if state::touches(state::slice(n, writes@, s.node), s.read_keys) {
                    let k = choose|k: Key|
                        #![trigger writes@.contains_key(k)]
                        writes@.contains_key(k) && state::owner_among(n, k) == s.node
                            && s.read_keys.contains(k);
                    assert(keys@.to_set().contains(k));
                    assert(state::owners(n, keys@.to_set()).contains(s.node));
                    assert(owners@.to_set().contains(s.node));
                }
            }
            assert(self@.subs =~= want);
            assert(state::entries(n, commit_ts, writes@) =~= owners@.map_values(entry));
            assert(self@.commit_log =~= c.commit_log + state::entries(n, commit_ts, writes@));
            assert(self@.nodes == Seq::new(
                c.nodes.len(),
                |i: int| c.node_applied(i as NodeId, commit_ts, writes@),
            ));
        }
        self.recompute_floor();
    }
}

/// Replaying changes neither the log nor who is up, nor any cursor.
proof fn lemma_replayed_frame(c: ClusterState, node: NodeId, from: nat, to: nat)
    requires
        c.shaped(),
        node < c.num_partitions,
        to <= c.commit_log.len(),
    ensures
        ({
            let r = c.replayed_range(node, from, to);
            &&& r.shaped()
            &&& r.num_partitions == c.num_partitions
            &&& r.commit_log == c.commit_log
            &&& forall|i: int|
                0 <= i < c.nodes.len() ==> (#[trigger] r.nodes[i]).up == c.nodes[i].up
                    && r.nodes[i].cursor == c.nodes[i].cursor
        }),
    decreases to,
{
    if to > from {
        lemma_replayed_frame(c, node, from, (to - 1) as nat);
    }
}

impl Node {
    fn replay_writes(&mut self, ts: Ts, writes: &Vec<(Key, Value)>)
        ensures
            final(self)@ == (NodeState {
                replica: state::replica_with(old(self)@.replica, ts, writes@),
                ..old(self)@
            }),
    {
        let ghost n = self@;
        let mut i: usize = 0;
        assert(writes@.take(0) =~= seq![]);
        while i < writes.len()
            invariant
                i <= writes.len(),
                self@ == (NodeState {
                    replica: state::replica_with(n.replica, ts, writes@.take(i as int)),
                    ..n
                }),
            decreases writes.len() - i,
        {
            let (k, v) = writes[i];
            assert(writes@.take(i + 1).drop_last() =~= writes@.take(i as int));
            let newer: bool = match self.replica.get(&k) {
                Some(slot) => slot.0 > ts,
                None => false,
            };
            if !newer {
                self.replica.insert(k, (ts, v));
            }
            i = i + 1;
        }
        assert(writes@.take(i as int) =~= writes@);
    }
}

impl Cluster {
    /// Moves a replication frontier up to `ts`, never down.
    fn advance_frontier(&mut self, node: NodeId, source: NodeId, ts: Ts)
        requires
            old(self)@.shaped(),
            node < old(self)@.num_partitions,
        ensures
            ({
                let c = old(self)@;
                let exposed = state::max_ts(c.node(node).frontier_of(source), ts);
                final(self)@ == (ClusterState {
                    nodes: c.nodes.update(
                        node as int,
                        NodeState {
                            frontier: c.node(node).frontier.insert(source, exposed),
                            ..c.node(node)
                        },
                    ),
                    frontier_samples: c.frontier_samples.push((node, source, exposed)),
                    ..c
                })
            }),
    {
        let ghost c = self@;
        assert(c.node(node) == self.nodes@[node as int]@);
        let prev: Ts = match self.nodes[node as usize].frontier.get(&source) {
            Some(f) => *f,
            None => 0,
        };
        let exposed: Ts = if prev >= ts { prev } else { ts };
        self.nodes[node as usize].frontier.insert(source, exposed);
        if exposed < prev {
            let mut msg: String = String::new();
            msg.append("node ");
            text::push_dec(&mut msg, node as u64);
            msg.append(" frontier for source ");
            text::push_dec(&mut msg, source as u64);
            msg.append(" regressed ");
            text::push_dec(&mut msg, prev);
            msg.append(" -> ");
            text::push_dec(&mut msg, exposed);
            self.live_violations.push(LiveViolation(msg));
        }
        self.frontier_samples.push((node, source, exposed));
        assert(self@.nodes =~= c.nodes.update(
            node as int,
            NodeState { frontier: c.node(node).frontier.insert(source, exposed), ..c.node(node) },
        ));
    }

    /// `node` replays the log entry at `idx`.
    fn replay_entry(&mut self, node: NodeId, idx: usize)
        requires
            old(self)@.shaped(),
            node < old(self)@.num_partitions,
            idx < old(self)@.commit_log.len(),
        ensures
            final(self)@ == old(self)@.replayed_one(node, idx as int),
    {
        let ghost c = self@;
        assert(c.commit_log[idx as int] == self.commit_log@[idx as int]@);
        assert(c.node(node) == self.nodes@[node as int]@);
        let source: NodeId = self.commit_log[idx].source;
        if source == node {
            return;  // Own writes are already in the local store.
        }
        let ts: Ts = self.commit_log[idx].ts;
        let writes: Vec<(Key, Value)> = crate::network::copy_writes(&self.commit_log[idx].writes);
        self.nodes[node as usize].replay_writes(ts, &writes);
        proof {
            assert(self@.nodes =~= c.nodes.update(
                node as int,
                NodeState {
                    replica: state::replica_with(c.node(node).replica, ts, writes@),
                    ..c.node(node)
                },
            ));
        }
        self.advance_frontier(node, source, ts);
        self.invalidate_subs_on(node, ts, &writes);
        proof {
            let want = c.replayed_one(node, idx as int);
            assert(self@.nodes =~= want.nodes);
            assert(self@ =~= want);
        }
    }

    /// Replays newly available replication-log entries onto every node that can
    /// currently consume them (up and not network-isolated). A crashed or
    /// isolated node does not advance its cursor and catches up later: the log
    /// is durable, so nothing is lost.
    pub fn replicate_tick(&mut self, network: &Network)
        requires
            old(self)@.shaped(),
        ensures
            final(self)@ == old(self)@.replicated(
                network@.isolated,
                old(self)@.num_partitions as nat,
            ),
            final(self)@.shaped(),
    {
        let ghost c = self@;
        let ghost isolated = network@.isolated;
        let n: u32 = self.num_partitions;
        let mut node: u32 = 0;
        while node < n
            invariant
                node <= n,
                n == c.num_partitions,
                isolated == network@.isolated,
                self@ == c.replicated(isolated, node as nat),
                self@.shaped(),
                self@.num_partitions == n,
            decreases n - node,
        {
            let ghost s = self@;
            assert(s.node(node) == self.nodes@[node as int]@);
            if self.nodes[node as usize].up && !network.is_isolated(node) {
                let from: usize = self.nodes[node as usize].repl_cursor;
                let mut cursor: usize = from;
                let end: usize = self.commit_log.len();
                if cursor < end {
                    while cursor < end
                        invariant
                            from <= cursor <= end,
                            s.shaped(),
                            node < s.num_partitions,
                            from == s.node(node).cursor,
                            end == s.commit_log.len(),
                            self@ == s.replayed_range(node, from as nat, cursor as nat),
                            self@.shaped(),
                            self@.num_partitions == s.num_partitions,
                            self@.commit_log == s.commit_log,
                        decreases end - cursor,
                    {
                        self.replay_entry(node, cursor);
                        cursor = cursor + 1;
                        proof {
                            lemma_replayed_frame(s, node, from as nat, cursor as nat);
                        }
                    }
                }
                let ghost r = self@;
                proof {
                    lemma_replayed_frame(s, node, from as nat, end as nat);
                }
                assert(r == s.replayed_range(node, s.node(node).cursor, s.commit_log.len()));
                assert(r.node(node) == self.nodes@[node as int]@);
                self.nodes[node as usize].repl_cursor = end;
                proof {
                    assert(self@.nodes =~= r.nodes.update(
                        node as int,
                        NodeState { cursor: end as nat, ..r.node(node) },
                    ));
                    assert(self@ =~= s.replayed(node));
                }
            }
            node = node + 1;
        }
    }

    /// Gives each of `keys` a value of its own.
    fn fresh_values(&mut self, keys: &Vec<Key>) -> (writes: BTreeMap<Key, Value>)
        requires
            old(self)@.next_value + keys@.len() <= u64::MAX,
        ensures
            writes@ == state::numbered(keys@, old(self)@.next_value),
            final(self)@ == (ClusterState {
                next_value: (old(self)@.next_value + keys@.len()) as u64,
                ..old(self)@
            }),
    {
        let ghost c = self@;
        let mut writes: BTreeMap<Key, Value> = BTreeMap::new();
        let mut i: usize = 0;
        assert(keys@.take(0) =~= seq![]);
        while i < keys.len()
            invariant
                i <= keys.len(),
                c.next_value + keys@.len() <= u64::MAX,
                writes@ == state::numbered(keys@.take(i as int), c.next_value),
                self@ == (ClusterState { next_value: (c.next_value + i) as u64, ..c }),
            decreases keys.len() - i,
        {
            assert(keys@.take(i + 1).drop_last() =~= keys@.take(i as int));
            let v: Value = self.next_value;
            self.next_value = self.next_value + 1;
            writes.insert(keys[i], v);
            i = i + 1;
        }
        assert(keys@.take(i as int) =~= keys@);
        writes
    }

    fn commit_single_partition(
        &mut self,
        begin_ts: Ts,
        reads: BTreeMap<Key, Value>,
        write_keys: BTreeSet<Key>,
    )
        requires
            old(self)@.shaped(),
            old(self)@.tso_next < u64::MAX,
            old(self)@.committed_floor < u64::MAX - 1,
            old(self)@.next_value + write_keys@.len() <= u64::MAX,
            old(self)@.next_txn_record < u64::MAX,
        ensures
            final(self)@ == old(self)@.single_committed(begin_ts, reads@, write_keys@),
    {
        let ghost c = self@;
        let keys: Vec<Key> = ordered::members_u32(&write_keys);
        proof {
            assert(keys@.len() == write_keys@.len()) by {
                keys@.unique_seq_to_set();
            }
        }
        if keys.len() == 0 {
            assert(write_keys@ =~= Set::empty());
            return;
        }
        proof {
            ordered::lemma_ends_u32(keys@, write_keys@);
            assert(write_keys@.contains(keys@[0]));
        }
        let owner: NodeId = self.owner(keys[0]);
        assert(c.node(owner) == self.nodes@[owner as int]@);
        if !self.nodes[owner as usize].up {
            return;  // Owner unavailable: the write simply does not happen.
        }
        if self.has_conflict(&reads, begin_ts) {
            return;
        }
        let commit_ts: Ts = self.alloc_ts();
        if self.pending_blocks_reads(&reads, commit_ts) {
            // Defer to a lower pending prepare that may write a read key.
            return;
        }
        let writes: BTreeMap<Key, Value> = self.fresh_values(&keys);
        let mut msg: String = String::new();
        msg.append("commit 1P owner=");
        text::push_dec(&mut msg, owner as u64);
        msg.append(" begin=");
        text::push_dec(&mut msg, begin_ts);
        msg.append(" commit=");
        text::push_dec(&mut msg, commit_ts);
        msg.append(" keys=");
        text::push_list(&mut msg, "[", &keys, "]");
        proof {
            assert(msg@ =~= "commit 1P owner="@ + text::dec(owner as nat) + " begin="@ + text::dec(
                begin_ts as nat,
            ) + " commit="@ + text::dec(commit_ts as nat) + " keys="@ + text::list_text(
                "["@,
                keys@,
                "]"@,
            ));
        }
        self.trace(msg);
        self.commit_writes_and_replicate(commit_ts, &writes);
        self.record_commit(begin_ts, commit_ts, reads, writes);
    }

    /// Loses the volatile coordinator state of `node`. Any transaction it was
    /// coordinating but had not yet decided is abandoned: a rollback decision is
    /// recorded and its hold on the floor is released.
    pub fn crash(&mut self, node: NodeId)
        requires
            old(self)@.shaped(),
            node < old(self)@.num_partitions,
        ensures
            final(self)@ == old(self)@.crashed(node),
            final(self)@.shaped(),
    {
        let ghost c = self@;
        let ghost n = c.node(node);
        assert(n == self.nodes@[node as int]@);
        if !self.nodes[node as usize].up {
            return;
        }
        let txns: Vec<TxnId> = ordered::keys_u64(&self.nodes[node as usize].coordinating);
        assert(n.coordinating.dom() =~= self.nodes@[node as int].coordinating@.dom());
        let mut j: usize = 0;
        proof {
            assert(self@.decisions =~= decisions_after(c.decisions, n, txns@.take(0)));
            assert(released(n, txns@.take(0)) =~= Set::empty());
            assert(c.pending_prepares.remove_keys(released(n, txns@.take(0)))
                =~= c.pending_prepares);
        }
        while j < txns.len()
            invariant
                j <= txns.len(),
                node < c.num_partitions,
                c.shaped(),
                n == c.node(node),
                txns@.to_set() == n.coordinating.dom(),
                self@ == (ClusterState {
                    decisions: decisions_after(c.decisions, n, txns@.take(j as int)),
                    pending_prepares: c.pending_prepares.remove_keys(
                        released(n, txns@.take(j as int)),
                    ),
                    ..c
                }),
            decreases txns.len() - j,
        {
            let t: TxnId = txns[j];
            let ghost mid = self@;
            let ghost q0 = txns@.take(j as int);
            let ghost q1 = txns@.take(j + 1);
            assert(txns@.to_set().contains(t));
            assert(n == self.nodes@[node as int]@) by {
                assert(mid.nodes == c.nodes);
                assert(mid.node(node) == self.nodes@[node as int]@);
            }
            assert(self.nodes@[node as int].coordinating@.contains_key(t)) by {
                assert(n.coordinating.contains_key(t));
            }
            let open: Option<Ts> = match self.nodes[node as usize].coordinating.get(&t) {
                Some(s) => if s.decided { None } else { Some(s.prepare_ts) },
                None => None,
            };
            proof {
                lemma_prefix_set(txns@, j as int);
            }
            match open {
                Some(prepare_ts) => {
                    if !self.decisions.contains_key(&t) {
                        self.decisions.insert(t, Decision::RolledBack);
                    }
                    self.pending_prepares.remove(&prepare_ts);
                    proof {
                        assert(n.undecided(t));
                        assert(n.coordinating[t].prepare_ts == prepare_ts);
                        assert(released(n, q1) =~= released(n, q0).insert(prepare_ts)) by {
                            lemma_released_push(n, txns@, j as int);
                        }
                        assert(self@.decisions =~= decisions_after(c.decisions, n, q1));
                        assert(self@.pending_prepares =~= mid.pending_prepares.remove(prepare_ts));
                        assert(self@.pending_prepares =~= c.pending_prepares.remove_keys(
                            released(n, q1),
                        ));
                    }
                },
                None => {
                    proof {
                        assert(!n.undecided(t));
                        lemma_released_push(n, txns@, j as int);
                        assert(self@.decisions =~= decisions_after(c.decisions, n, q1));
                    }
                },
            }
            j = j + 1;
        }
        self.nodes[node as usize].up = false;
        self.nodes[node as usize].coordinating = BTreeMap::new();
        proof {
            assert(txns@.take(j as int) =~= txns@);
            assert(released(n, txns@) =~= c.abandoned_prepares(node)) by {
                assert(txns@.to_set().filter(|t: TxnId| n.undecided(t))
                    =~= n.coordinating.dom().filter(|t: TxnId| c.node(node).undecided(t)));
                let f = |t: TxnId| n.coordinating[t].prepare_ts;
                let g = |t: TxnId| c.node(node).coordinating[t].prepare_ts;
                assert(f =~= g);
            }
            let d = Map::new(
                |t: TxnId| c.decisions.contains_key(t) || n.undecided(t),
                |t: TxnId|
                    if c.decisions.contains_key(t) {
                        c.decisions[t]
                    } else {
                        Decision::RolledBack
                    },
            );
            assert(self@.decisions =~= d);
            let gone = NodeState { up: false, coordinating: Map::empty(), ..n };
            assert(self.nodes@[node as int]@.coordinating =~= gone.coordinating);
            assert(self@.nodes =~= c.nodes.update(node as int, gone));
        }
        self.recompute_floor();
        let mut msg: String = String::new();
        msg.append("crash node=");
        text::push_dec(&mut msg, node as u64);
        assert(msg@ =~= "crash node="@ + text::dec(node as nat));
        self.trace(msg);
    }

    pub fn is_up(&self, node: NodeId) -> (r: bool)
        requires
            self@.shaped(),
            node < self@.num_partitions,
        ensures
            r == self@.node(node).up,
    {
        self.nodes[node as usize].up
    }

    /// Bumps the authoritative placement version and propagates it to a subset
    /// of nodes, leaving the rest stale.
    pub fn bump_placement_on(&mut self, refreshed: &Vec<NodeId>)
        requires
            old(self)@.shaped(),
            old(self)@.placement_version < u64::MAX,
            forall|i: int|
                0 <= i < refreshed@.len() ==> #[trigger] refreshed@[i] < old(
                    self,
                )@.num_partitions,
        ensures
            final(self)@ == old(self)@.placement_bumped(refreshed@),
            final(self)@.shaped(),
    {
        let ghost c = self@;
        self.placement_version = self.placement_version + 1;
        let v: u64 = self.placement_version;
        let mut j: usize = 0;
        while j < refreshed.len()
            invariant
                j <= refreshed.len(),
                c.shaped(),
                v == self.placement_version,
                forall|i: int|
                    0 <= i < refreshed@.len() ==> #[trigger] refreshed@[i] < c.num_partitions,
                self@ == (ClusterState { placement_version: v, nodes: self@.nodes, ..c }),
                self@.nodes.len() == c.nodes.len(),
                forall|i: int|
                    0 <= i < c.nodes.len() ==> #[trigger] self@.nodes[i] == (
                    if refreshed@.take(j as int).contains(i as NodeId) {
                        NodeState { placement_version: v, ..c.nodes[i] }
                    } else {
                        c.nodes[i]
                    }),
            decreases refreshed.len() - j,
        {
            let ghost mid = self@.nodes;
            let r: NodeId = refreshed[j];
            assert(mid[r as int] == self.nodes@[r as int]@);
            self.nodes[r as usize].placement_version = v;
            proof {
                let q0 = refreshed@.take(j as int);
                let q1 = refreshed@.take(j + 1);
                assert(q1 =~= q0.push(r));
                assert forall|x: NodeId| #[trigger] q1.contains(x) == (q0.contains(x) || x == r) by {
                    if q0.contains(x) {
                        let m = choose|m: int| 0 <= m < q0.len() && q0[m] == x;
                        assert(q1[m] == x);
                    }
                    assert(q1[j as int] == r);
                }
                assert(self@.nodes =~= mid.update(
                    r as int,
                    NodeState { placement_version: v, ..mid[r as int] },
                ));
            }
            j = j + 1;
        }
        proof {
            assert(refreshed@.take(j as int) =~= refreshed@);
            assert(self@.nodes =~= Seq::new(
                c.nodes.len(),
                |i: int|
                    if refreshed@.contains(i as NodeId) {
                        NodeState { placement_version: v, ..c.nodes[i] }
                    } else {
                        c.nodes[i]
                    },
            ));
        }
        let mut msg: String = String::new();
        msg.append("placement bump -> v");
        text::push_dec(&mut msg, v);
        msg.append(" refreshed=");
        text::push_list(&mut msg, "[", refreshed, "]");
        proof {
            assert(msg@ =~= "placement bump -> v"@ + text::dec(v as nat) + " refreshed="@
                + text::list_text("["@, refreshed@, "]"@));
        }
        self.trace(msg);
    }
}

/// The decision log once the undecided transactions of `q` are abandoned.
spec fn decisions_after(
    d: Map<TxnId, Decision>,
    n: NodeState,
    q: Seq<TxnId>,
) -> Map<TxnId, Decision> {
    Map::new(
        |t: TxnId| d.contains_key(t) || (q.to_set().contains(t) && n.undecided(t)),
        |t: TxnId|
            if d.contains_key(t) {
                d[t]
            } else {
                Decision::RolledBack
            },
    )
}

/// The prepare timestamps of the undecided transactions of `q`.
spec fn released(n: NodeState, q: Seq<TxnId>) -> Set<Ts> {
    q.to_set().filter(|t: TxnId| n.undecided(t)).map(|t: TxnId| n.coordinating[t].prepare_ts)
}

proof fn lemma_prefix_set(q: Seq<u64>, j: int)
    requires
        0 <= j < q.len(),
    ensures
        q.take(j + 1).to_set() == q.take(j).to_set().insert(q[j]),
{
    let a = q.take(j);
    let b = q.take(j + 1);
    assert(b =~= a.push(q[j]));
    assert forall|x: u64| b.to_set().contains(x) == a.to_set().insert(q[j]).contains(x) by {
        if b.to_set().contains(x) {
            let m = choose|m: int| 0 <= m < b.len() && b[m] == x;
            if m < j {
                assert(a[m] == x);
            }
        }
        if a.to_set().contains(x) {
            let m = choose|m: int| 0 <= m < a.len() && a[m] == x;
            assert(b[m] == x);
        }
        assert(b[j] == q[j]);
    }
    assert(b.to_set() =~= a.to_set().insert(q[j]));
}

proof fn lemma_released_push(n: NodeState, q: Seq<TxnId>, j: int)
    requires
        0 <= j < q.len(),
    ensures
        released(n, q.take(j + 1)) == if n.undecided(q[j]) {
            released(n, q.take(j)).insert(n.coordinating[q[j]].prepare_ts)
        } else {
            released(n, q.take(j))
        },
{
    lemma_prefix_set(q, j);
    let a = q.take(j).to_set().filter(|t: TxnId| n.undecided(t));
    let b = q.take(j + 1).to_set().filter(|t: TxnId| n.undecided(t));
    let f = |t: TxnId| n.coordinating[t].prepare_ts;
    if n.undecided(q[j]) {
        assert(b =~= a.insert(q[j]));
        assert forall|x: Ts| b.map(f).contains(x) == a.map(f).insert(f(q[j])).contains(x) by {
            if b.map(f).contains(x) {
                let t = choose|t: TxnId| b.contains(t) && f(t) == x;
                if t != q[j] {
                    assert(a.contains(t));
                }
            }
            if a.map(f).contains(x) {
                let t = choose|t: TxnId| a.contains(t) && f(t) == x;
                assert(b.contains(t));
            }
            assert(b.contains(q[j]));
        }
        assert(b.map(f) =~= a.map(f).insert(f(q[j])));
    } else {
        assert(b =~= a);
    }
}

/// Sending uses up one send's worth of room and leaves the rest of the
/// transport as it is.
proof fn lemma_send_frame(
    net: NetState,
    rng: RngState,
    now: nat,
    from: NodeId,
    to: NodeId,
    msg: MsgView,
    sends: nat,
)
    requires
        net.room(sends + 1),
    ensures
        net.send(rng, now, from, to, msg).0.room(sends),
        net.send(rng, now, from, to, msg).0.config == net.config,
        net.send(rng, now, from, to, msg).0.isolated == net.isolated,
{
}

proof fn lemma_set_len(q: Seq<u32>, s: Set<u32>)
    requires
        ordered::sorted_u32(q),
        q.to_set() == s,
    ensures
        s.finite(),
        s.len() == q.len(),
{
    q.unique_seq_to_set();
}

/// Sending to a list leaves the cluster, the transport's settings and its
/// partition as they are, and uses one send's worth of room per recipient.
proof fn lemma_sent_frame(
    w: World,
    from: NodeId,
    tos: Seq<NodeId>,
    msg: spec_fn(NodeId) -> MsgView,
    sends: nat,
)
    requires
        w.net.room(sends + tos.len()),
    ensures
        w.sent(from, tos, msg).cluster == w.cluster,
        w.sent(from, tos, msg).net.room(sends),
        w.sent(from, tos, msg).net.config == w.net.config,
        w.sent(from, tos, msg).net.isolated == w.net.isolated,
    decreases tos.len(),
{
    if tos.len() > 0 {
        lemma_sent_frame(w, from, tos.drop_last(), msg, sends + 1);
        let w1 = w.sent(from, tos.drop_last(), msg);
        lemma_send_frame(
            w1.net,
            w1.rng,
            w.cluster.now as nat,
            from,
            tos.last(),
            msg(tos.last()),
            sends,
        );
    }
}

impl Cluster {
    /// Sends a copy of `msg` to every node of `tos`, in order.
    fn broadcast(
        &self,
        rng: &mut Rng,
        network: &mut Network,
        from: NodeId,
        tos: &Vec<NodeId>,
        msg: &Msg,
    )
        requires
            old(network)@.room(tos@.len()),
            self@.now + old(network)@.config.latency_bound() <= u64::MAX,
        ensures
            (World { cluster: self@, net: final(network)@, rng: final(rng)@ }) == (World {
                cluster: self@,
                net: old(network)@,
                rng: old(rng)@,
            }).sent(from, tos@, |p: NodeId| msg@),
    {
        let ghost w = World { cluster: self@, net: network@, rng: rng@ };
        let ghost f = |p: NodeId| msg@;
        let mut i: usize = 0;
        assert(tos@.take(0) =~= seq![]);
        while i < tos.len()
            invariant
                i <= tos.len(),
                w.cluster == self@,
                f == (|p: NodeId| msg@),
                w.net.room(tos@.len()),
                w.cluster.now + w.net.config.latency_bound() <= u64::MAX,
                (World { cluster: self@, net: network@, rng: rng@ }) == w.sent(
                    from,
                    tos@.take(i as int),
                    f,
                ),
            decreases tos.len() - i,
        {
            proof {
                lemma_sent_frame(
                    w,
                    from,
                    tos@.take(i as int),
                    f,
                    (tos@.len() - i) as nat,
                );
                assert(tos@.take(i + 1).drop_last() =~= tos@.take(i as int));
            }
            network.send(rng, self.now, from, tos[i], msg.clone());
            i = i + 1;
        }
        assert(tos@.take(i as int) =~= tos@);
    }

    /// Takes a prepare timestamp, holds the committed floor below it, and asks
    /// every participant to prepare its slice.
    fn begin_two_phase(
        &mut self,
        rng: &mut Rng,
        network: &mut Network,
        coordinator: NodeId,
        begin_ts: Ts,
        reads: BTreeMap<Key, Value>,
        write_keys: BTreeSet<Key>,
        participants: BTreeSet<NodeId>,
    )
        requires
            old(self)@.shaped(),
            coordinator < old(self)@.num_partitions,
            old(self)@.tso_next < u64::MAX,
            old(self)@.committed_floor < u64::MAX - 1,
            old(self)@.next_value + write_keys@.len() <= u64::MAX,
            old(self)@.next_txn < u64::MAX,
            old(network)@.room(participants@.len()),
            old(self)@.now + old(network)@.config.latency_bound() <= u64::MAX,
        ensures
            (World { cluster: final(self)@, net: final(network)@, rng: final(rng)@ }) == (World {
                cluster: old(self)@,
                net: old(network)@,
                rng: old(rng)@,
            }).two_phase_begun(coordinator, begin_ts, reads@, write_keys@, participants@),
    {
        let ghost w = World { cluster: self@, net: network@, rng: rng@ };
        let ghost c = self@;
        if self.has_conflict(&reads, begin_ts) {
            return;
        }
        let keys: Vec<Key> = ordered::members_u32(&write_keys);
        let parts: Vec<NodeId> = ordered::members_u32(&participants);
        proof {
            lemma_set_len(keys@, write_keys@);
            lemma_set_len(parts@, participants@);
        }
        let txn: TxnId = self.next_txn;
        self.next_txn = self.next_txn + 1;
        let prepare_ts: Ts = self.alloc_ts();
        // Hold the committed floor below this prepare timestamp until the
        // transaction resolves, and remember its write set so concurrent commits
        // that read those keys defer to it.
        self.pending_prepares.insert(prepare_ts, write_keys);
        assert(self@.pending_prepares =~= c.pending_prepares.insert(prepare_ts, write_keys@));
        let writes: BTreeMap<Key, Value> = self.fresh_values(&keys);
        let pv: u64 = self.placement_version;
        let mut msg: String = String::new();
        msg.append("begin 2PC txn=");
        text::push_dec(&mut msg, txn);
        msg.append(" coord=");
        text::push_dec(&mut msg, coordinator as u64);
        msg.append(" parts=");
        text::push_list(&mut msg, "{", &parts, "}");
        msg.append(" prepare_ts=");
        text::push_dec(&mut msg, prepare_ts);
        proof {
            assert(msg@ =~= "begin 2PC txn="@ + text::dec(txn as nat) + " coord="@ + text::dec(
                coordinator as nat,
            ) + " parts="@ + text::list_text("{"@, parts@, "}"@) + " prepare_ts="@ + text::dec(
                prepare_ts as nat,
            ));
        }
        self.trace(msg);
        let ghost c0 = self@;
        assert(c0.node(coordinator) == self.nodes@[coordinator as int]@);
        let started_at: SimTime = self.now;
        let coord = Coordinating {
            begin_ts,
            prepare_ts,
            started_at,
            participants,
            replies_ok: BTreeSet::new(),
            replies_bad: BTreeSet::new(),
            reads,
            writes: writes.clone(),
            decided: false,
        };
        let ghost coord_state = coord@;
        self.nodes[coordinator as usize].coordinating.insert(txn, coord);
        proof {
            let n = c0.node(coordinator);
            assert(self.nodes@[coordinator as int]@.coordinating =~= n.coordinating.insert(
                txn,
                coord_state,
            ));
            assert(self@.nodes =~= c0.with_coord(coordinator, txn, coord_state).nodes);
            assert(self@ =~= c0.with_coord(coordinator, txn, coord_state));
        }
        let ghost c1 = self@;
        let ghost f = |p: NodeId|
            MsgView::Prepare {
                txn,
                coordinator,
                prepare_ts,
                writes: state::slice(c.num_partitions, writes@, p),
                placement_version: c.placement_version,
            };
        let mut i: usize = 0;
        assert(parts@.take(0) =~= seq![]);
        while i < parts.len()
            invariant
                i <= parts.len(),
                self@ == c1,
                c1.num_partitions == c.num_partitions,
                c.num_partitions > 0,
                pv == c.placement_version,
                f == (|p: NodeId|
                    MsgView::Prepare {
                        txn,
                        coordinator,
                        prepare_ts,
                        writes: state::slice(c.num_partitions, writes@, p),
                        placement_version: c.placement_version,
                    }),
                w.net.room(parts@.len()),
                c1.now + w.net.config.latency_bound() <= u64::MAX,
                (World { cluster: c1, net: network@, rng: rng@ }) == w.on(c1).sent(
                    coordinator,
                    parts@.take(i as int),
                    f,
                ),
            decreases parts.len() - i,
        {
            proof {
                lemma_sent_frame(
                    w.on(c1),
                    coordinator,
                    parts@.take(i as int),
                    f,
                    (parts@.len() - i) as nat,
                );
                assert(parts@.take(i + 1).drop_last() =~= parts@.take(i as int));
            }
            let p: NodeId = parts[i];
            let slice: Vec<(Key, Value)> = self.slice(&writes, p);
            network.send(
                rng,
                self.now,
                coordinator,
                p,
                Msg::Prepare { txn, coordinator, prepare_ts, writes: slice, placement_version: pv },
            );
            i = i + 1;
        }
        assert(parts@.take(i as int) =~= parts@);
    }

    /// A random key out of the key space.
    fn draw_key(&self, rng: &mut Rng) -> (k: Key)
        requires
            self@.num_partitions > 0,
            self@.key_space() <= u32::MAX,
        ensures
            (k, final(rng)@) == state::drawn_key(old(rng)@, self@.key_space()),
    {
        let space: u32 = self.num_partitions * 4;
        rng.int_in(0, (space - 1) as u64) as Key
    }

    fn draw_keys(&self, rng: &mut Rng, m: u64) -> (keys: BTreeSet<Key>)
        requires
            self@.num_partitions > 0,
            self@.key_space() <= u32::MAX,
        ensures
            (keys@, final(rng)@) == state::drawn_keys(
                old(rng)@,
                self@.key_space(),
                m as nat,
            ),
            keys@.finite(),
            keys@.len() <= m,
    {
        let mut keys: BTreeSet<Key> = BTreeSet::new();
        let mut i: u64 = 0;
        while i < m
            invariant
                i <= m,
                self@.num_partitions > 0,
                self@.key_space() <= u32::MAX,
                (keys@, rng@) == state::drawn_keys(old(rng)@, self@.key_space(), i as nat),
                keys@.finite(),
                keys@.len() <= i,
            decreases m - i,
        {
            let k: Key = self.draw_key(rng);
            keys.insert(k);
            i = i + 1;
        }
        keys
    }

    /// Attempts one transaction originating on `origin`. Single-partition
    /// writes commit synchronously at the owner; multi-partition writes go
    /// through two-phase commit.
    pub fn try_transaction(&mut self, rng: &mut Rng, network: &mut Network, origin: NodeId)
        requires
            old(self)@.shaped(),
            old(self)@.key_space() <= u32::MAX,
            origin < old(self)@.num_partitions,
            old(self)@.tso_next < u64::MAX,
            old(self)@.committed_floor < u64::MAX - 1,
            old(self)@.next_value + 2 <= u64::MAX,
            old(self)@.next_txn < u64::MAX,
            old(self)@.next_txn_record < u64::MAX,
            old(network)@.room(2),
            old(self)@.now + old(network)@.config.latency_bound() <= u64::MAX,
        ensures
            (World { cluster: final(self)@, net: final(network)@, rng: final(rng)@ }) == (World {
                cluster: old(self)@,
                net: old(network)@,
                rng: old(rng)@,
            }).transacted(origin),
    {
        let ghost c = self@;
        assert(c.node(origin) == self.nodes@[origin as int]@);
        if !self.nodes[origin as usize].up {
            return;
        }
        let begin_ts: Ts = self.committed_floor;
        let n_reads: u64 = rng.int_in(1, 3);
        let n_writes: u64 = rng.int_in(1, 2);
        let ghost r2 = rng@;
        let mut reads: BTreeMap<Key, Value> = BTreeMap::new();
        let mut i: u64 = 0;
        while i < n_reads
            invariant
                i <= n_reads,
                self@ == c,
                c.shaped(),
                c.key_space() <= u32::MAX,
                begin_ts == c.committed_floor,
                c == old(self)@,
                c.node(origin).up,
                n_reads == old(rng)@.int_in(1, 3).0,
                r2 == old(rng)@.int_in(1, 3).1.int_in(1, 2).1,
                network@ == old(network)@,
                (true, reads@, rng@) == state::drawn_reads(c, r2, begin_ts, i as nat),
            decreases n_reads - i,
        {
            let k: Key = self.draw_key(rng);
            // A key is read through its owning partition's committer. If that
            // owner is down the read cannot be served, so the whole transaction
            // is abandoned.
            let owner: usize = self.owner(k) as usize;
            assert(c.node(owner as NodeId) == self.nodes@[owner as int]@);
            if !self.nodes[owner].up {
                proof {
                    lemma_reads_stop(c, r2, begin_ts, (i + 1) as nat, n_reads as nat);
                }
                return;
            }
            let seen: Value = self.value_as_of(k, begin_ts);
            reads.insert(k, seen);
            i = i + 1;
        }
        let write_keys: BTreeSet<Key> = self.draw_keys(rng, n_writes);
        let keys: Vec<Key> = ordered::members_u32(&write_keys);
        let owners: BTreeSet<NodeId> = self.owners(&keys);
        let owner_list: Vec<NodeId> = ordered::members_u32(&owners);
        proof {
            lemma_set_len(owner_list@, owners@);
            lemma_owners_len(c.num_partitions, write_keys@);
        }
        if owner_list.len() <= 1 {
            self.commit_single_partition(begin_ts, reads, write_keys);
        } else {
            self.begin_two_phase(rng, network, origin, begin_ts, reads, write_keys, owners);
        }
    }

    /// Invalidates, watches and records a new subscription on `node` to one or
    /// two random keys.
    pub fn register_subscription(&mut self, rng: &mut Rng, node: NodeId)
        requires
            old(self)@.num_partitions > 0,
            old(self)@.key_space() <= u32::MAX,
        ensures
            ({
                let (n, r1) = old(rng)@.int_in(1, 2);
                let (keys, r2) = state::drawn_keys(r1, old(self)@.key_space(), n as nat);
                final(self)@ == old(self)@.subscribed(node, keys) && final(rng)@ == r2
            }),
    {
        let ghost c = self@;
        let n: u64 = rng.int_in(1, 2);
        let read_keys: BTreeSet<Key> = self.draw_keys(rng, n);
        let registered_ts: Ts = self.committed_floor;
        // Match the read set against writes already in the log above the
        // subscription's snapshot. The floor can be capped below
        // already-committed writes by a pending prepare, so a brand-new
        // subscription may need to be invalidated immediately.
        let mut already_stale: bool = false;
        let mut i: usize = 0;
        while i < self.commit_log.len()
            invariant
                i <= self.commit_log.len(),
                self@ == c,
                already_stale == exists|a: int|
                    0 <= a < i && (#[trigger] c.commit_log[a]).ts > registered_ts
                        && state::touches(c.commit_log[a].writes, read_keys@),
            decreases self.commit_log.len() - i,
        {
            assert(c.commit_log[i as int] == self.commit_log@[i as int]@);
            let ghost before = already_stale;
            if self.commit_log[i].ts > registered_ts && list_touches(
                &self.commit_log[i].writes,
                &read_keys,
            ) {
                already_stale = true;
            }
            i = i + 1;
            proof {
                if before {
                    let a = choose|a: int|
                        0 <= a < i - 1 && (#[trigger] c.commit_log[a]).ts > registered_ts
                            && state::touches(c.commit_log[a].writes, read_keys@);
                    assert(c.commit_log[a].ts > registered_ts);
                }
            }
        }
        assert(already_stale == c.stale_since(registered_ts, read_keys@));
        let key_list: Vec<Key> = ordered::members_u32(&read_keys);
        let mut msg: String = String::new();
        msg.append("subscribe sub=");
        text::push_dec(&mut msg, self.subs.len() as u64);
        msg.append(" node=");
        text::push_dec(&mut msg, node as u64);
        msg.append(" keys=");
        text::push_list(&mut msg, "{", &key_list, "}");
        msg.append(" registered_ts=");
        text::push_dec(&mut msg, registered_ts);
        msg.append(" stale=");
        if already_stale {
            msg.append("true");
        } else {
            msg.append("false");
        }
        proof {
            assert(c.subs.len() == self.subs@.len());
            assert(msg@ =~= "subscribe sub="@ + text::dec(c.subs.len()) + " node="@ + text::dec(
                node as nat,
            ) + " keys="@ + text::list_text("{"@, key_list@, "}"@) + " registered_ts="@
                + text::dec(registered_ts as nat) + " stale="@ + (if already_stale {
                "true"@
            } else {
                "false"@
            }));
        }
        self.trace(msg);
        let ghost t = self@;
        let sub = Subscription { node, read_keys, registered_ts, invalidated: already_stale };
        let ghost sub_state = sub@;
        self.subs.push(sub);
        assert(self@.subs =~= t.subs.push(sub_state));
    }
}

/// Once a read could not be served, further draws change nothing.
proof fn lemma_reads_stop(c: ClusterState, rng: RngState, begin_ts: Ts, m: nat, total: nat)
    requires
        m <= total,
        !state::drawn_reads(c, rng, begin_ts, m).0,
    ensures
        state::drawn_reads(c, rng, begin_ts, total) == state::drawn_reads(c, rng, begin_ts, m),
    decreases total,
{
    if m < total {
        lemma_reads_stop(c, rng, begin_ts, m, (total - 1) as nat);
    }
}

/// There are no more owners than keys, and owners are nodes of the cluster.
proof fn lemma_owners_len(n: u32, keys: Set<Key>)
    requires
        n > 0,
        keys.finite(),
    ensures
        state::owners(n, keys).finite(),
        state::owners(n, keys).len() <= keys.len(),
        forall|o: NodeId| state::owners(n, keys).contains(o) ==> o < n,
    decreases keys.len(),
{
    let f = |k: Key| state::owner_among(n, k);
    vstd::set_lib::lemma_map_size_bound(keys, state::owners(n, keys), f);
}

/// Whether two sets of nodes are equal.
fn same_nodes(a: &BTreeSet<NodeId>, b: &BTreeSet<NodeId>) -> (r: bool)
    ensures
        r == (a@ == b@),
{
    let p: Vec<NodeId> = ordered::members_u32(a);
    let q: Vec<NodeId> = ordered::members_u32(b);
    if p.len() != q.len() {
        return false;
    }
    let mut i: usize = 0;
    while i < p.len()
        invariant
            i <= p.len(),
            p.len() == q.len(),
            p@ == ordered::ascending_u32(a@),
            q@ == ordered::ascending_u32(b@),
            forall|j: int| 0 <= j < i ==> p@[j] == q@[j],
        decreases p.len() - i,
    {
        if p[i] != q[i] {
            return false;
        }
        i = i + 1;
    }
    assert(p@ =~= q@);
    true
}

/// Giving up on one transaction leaves every other coordinator entry, and the
/// participants of all, as they are.
proof fn lemma_timed_out_frame(w: World, node: NodeId, txn: TxnId, sends: nat)
    requires
        w.cluster.shaped(),
        w.cluster.paired(),
        node < w.cluster.num_partitions,
        w.cluster.node(node).coordinating.contains_key(txn),
        w.net.room(sends + 2),
    ensures
        w.timed_out(node, txn).cluster.shaped(),
        w.timed_out(node, txn).cluster.paired(),
        w.timed_out(node, txn).cluster.num_partitions == w.cluster.num_partitions,
        w.timed_out(node, txn).cluster.now == w.cluster.now,
        forall|i: int, t: TxnId|
            0 <= i < w.cluster.nodes.len() ==> #[trigger] w.timed_out(
                node,
                txn,
            ).cluster.nodes[i].coordinating.contains_key(t)
                == w.cluster.nodes[i].coordinating.contains_key(t),
        w.timed_out(node, txn).net.room(sends),
        w.timed_out(node, txn).net.config == w.net.config,
        w.timed_out(node, txn).net.isolated == w.net.isolated,
{
    let c = w.cluster;
    let s = c.node(node).coordinating[txn];
    assert(c.nodes[node as int].coordinating.contains_key(txn));
    ordered::lemma_ascending_u32(s.participants);
    let parts = ordered::ascending_u32(s.participants);
    lemma_set_len(parts, s.participants);
    let w1 = w.on(w.timed_out(node, txn).cluster);
    let d = if c.decisions.contains_key(txn) {
        c.decisions[txn]
    } else {
        Decision::RolledBack
    };
    let c1 = c.with_coord(node, txn, CoordState { decided: true, ..s }).resolved(
        txn,
        d,
        s.prepare_ts,
    ).refloored().traced("watcher ROLLBACK (timeout) txn="@ + text::dec(txn as nat));
    lemma_sent_frame(
        w.on(c1),
        node,
        parts,
        |p: NodeId| MsgView::RollbackPrepared { txn },
        (sends + 2 - parts.len()) as nat,
    );
    assert(w.timed_out(node, txn).cluster == c1);
    assert forall|i: int, t: TxnId| #[trigger]
        c1.nodes[i].coordinating.contains_key(t) && 0 <= i
            < c1.nodes.len() implies c1.small_group(
        c1.nodes[i].coordinating[t].participants,
    ) by {
        if i == node && t == txn {
        } else {
            assert(c.nodes[i].coordinating.contains_key(t));
        }
        if i == node {
            assert(c1.nodes[i].coordinating[t].participants
                == c.nodes[i].coordinating[t].participants);
        }
    }
    assert forall|i: int, t: TxnId| 0 <= i < c.nodes.len() implies #[trigger]
        c1.nodes[i].coordinating.contains_key(t) == c.nodes[i].coordinating.contains_key(t) by {}
}

impl Node {
    /// Drops the prepared slices whose outcome is in the decision log.
    fn drop_resolved(&mut self, decisions: &BTreeMap<TxnId, Decision>)
        ensures
            final(self)@ == (NodeState {
                prepared: old(self)@.prepared.remove_keys(decisions@.dom()),
                ..old(self)@
            }),
    {
        let ghost n = self@;
        let txns: Vec<TxnId> = ordered::keys_u64(&self.prepared);
        assert(n.prepared.dom() =~= self.prepared@.dom());
        let mut i: usize = 0;
        proof {
            assert(txns@.take(0).to_set() =~= Set::empty());
            assert(n.prepared.remove_keys(txns@.take(0).to_set().intersect(decisions@.dom()))
                =~= n.prepared);
        }
        while i < txns.len()
            invariant
                i <= txns.len(),
                self@ == (NodeState {
                    prepared: n.prepared.remove_keys(
                        txns@.take(i as int).to_set().intersect(decisions@.dom()),
                    ),
                    ..n
                }),
            decreases txns.len() - i,
        {
            let ghost mid = self@.prepared;
            let t: TxnId = txns[i];
            proof {
                lemma_prefix_set(txns@, i as int);
            }
            if decisions.contains_key(&t) {
                self.prepared.remove(&t);
                assert(self@.prepared =~= mid.remove(t));
            }
            proof {
                assert(self@.prepared =~= n.prepared.remove_keys(
                    txns@.take(i + 1).to_set().intersect(decisions@.dom()),
                ));
            }
            i = i + 1;
        }
        proof {
            assert(txns@.take(i as int) =~= txns@);
            assert(self@.prepared =~= n.prepared.remove_keys(decisions@.dom()));
        }
    }
}

impl Cluster {
    /// Clears the prepared slice of `txn` on `to`.
    fn clear_intent(&mut self, to: NodeId, txn: TxnId)
        requires
            old(self)@.shaped(),
            to < old(self)@.num_partitions,
        ensures
            final(self)@ == old(self)@.intent_cleared(to, txn),
    {
        let ghost c = self@;
        assert(c.node(to) == self.nodes@[to as int]@);
        self.nodes[to as usize].prepared.remove(&txn);
        assert(self.nodes@[to as int]@.prepared =~= c.node(to).prepared.remove(txn));
        assert(self@.nodes =~= c.intent_cleared(to, txn).nodes);
    }

    /// A message arrives at `to`. A crashed node drops delivered messages.
    pub fn deliver(&mut self, rng: &mut Rng, network: &mut Network, to: NodeId, msg: Msg)
        requires
            old(self)@.shaped(),
            old(self)@.paired(),
            to < old(self)@.num_partitions,
            old(self)@.next_txn_record < u64::MAX,
            old(network)@.room(2),
            old(self)@.now + old(network)@.config.latency_bound() <= u64::MAX,
        ensures
            (World { cluster: final(self)@, net: final(network)@, rng: final(rng)@ }) == (World {
                cluster: old(self)@,
                net: old(network)@,
                rng: old(rng)@,
            }).delivered(to, msg@),
    {
        let ghost c = self@;
        assert(c.node(to) == self.nodes@[to as int]@);
        if !self.nodes[to as usize].up {
            return;
        }
        match msg {
            Msg::Prepare { txn, coordinator, prepare_ts, writes, placement_version } => {
                // Fence stale prepares: the partition has already committed past
                // this timestamp, so accepting it would insert an out-of-order
                // commit. Also enforce placement-version agreement.
                let ok: bool = self.nodes[to as usize].placement_version == placement_version
                    && prepare_ts > self.nodes[to as usize].commit_frontier;
                let ghost slice = writes@;
                if ok {
                    self.nodes[to as usize].prepared.insert(txn, writes);
                    proof {
                        assert(self.nodes@[to as int]@.prepared =~= c.node(to).prepared.insert(
                            txn,
                            slice,
                        ));
                        assert(self@.nodes =~= c.intent_stored(to, txn, slice).nodes);
                    }
                }
                let tos: Vec<NodeId> = vec![coordinator];
                let reply = Msg::PrepareReply { txn, participant: to, ok };
                proof {
                    assert(tos@ =~= seq![coordinator]);
                    let f = |p: NodeId| reply@;
                    let g = |p: NodeId| MsgView::PrepareReply { txn, participant: to, ok };
                    assert(f =~= g);
                }
                self.broadcast(rng, network, to, &tos, &reply);
            },
            Msg::PrepareReply { txn, participant, ok } => {
                self.handle_prepare_reply(rng, network, to, txn, participant, ok);
            },
            Msg::CommitPrepared { txn, commit_ts: _ } => {
                // Writes were already applied at the commit decision; this just
                // clears the participant's durable prepared redo entry.
                self.clear_intent(to, txn);
            },
            Msg::RollbackPrepared { txn } => {
                self.clear_intent(to, txn);
            },
        }
    }

    /// Tells every participant that `txn` is rolled back.
    fn send_rollback(
        &self,
        rng: &mut Rng,
        network: &mut Network,
        coordinator: NodeId,
        txn: TxnId,
        participants: &BTreeSet<NodeId>,
    )
        requires
            participants@.len() <= 2,
            old(network)@.room(2),
            self@.now + old(network)@.config.latency_bound() <= u64::MAX,
        ensures
            (World { cluster: self@, net: final(network)@, rng: final(rng)@ }) == (World {
                cluster: self@,
                net: old(network)@,
                rng: old(rng)@,
            }).rolled_back(coordinator, txn, participants@),
    {
        let parts: Vec<NodeId> = ordered::members_u32(participants);
        let msg = Msg::RollbackPrepared { txn };
        proof {
            lemma_set_len(parts@, participants@);
            let f = |p: NodeId| msg@;
            let g = |p: NodeId| MsgView::RollbackPrepared { txn };
            assert(f =~= g);
        }
        self.broadcast(rng, network, coordinator, &parts, &msg);
    }

    fn handle_prepare_reply(
        &mut self,
        rng: &mut Rng,
        network: &mut Network,
        coordinator: NodeId,
        txn: TxnId,
        participant: NodeId,
        ok: bool,
    )
        requires
            old(self)@.shaped(),
            old(self)@.paired(),
            coordinator < old(self)@.num_partitions,
            old(self)@.next_txn_record < u64::MAX,
            old(network)@.room(2),
            old(self)@.now + old(network)@.config.latency_bound() <= u64::MAX,
        ensures
            (World { cluster: final(self)@, net: final(network)@, rng: final(rng)@ }) == (World {
                cluster: old(self)@,
                net: old(network)@,
                rng: old(rng)@,
            }).replied(coordinator, txn, participant, ok),
    {
        let ghost c = self@;
        let ghost known = c.node(coordinator).coordinating;
        assert(c.node(coordinator) == self.nodes@[coordinator as int]@);
        let mut entry: Coordinating = match self.nodes[coordinator as usize].coordinating.remove(
            &txn,
        ) {
            Some(s) => s,
            None => {
                proof {
                    assert(self.nodes@[coordinator as int]@.coordinating =~= known);
                    assert(self@.nodes =~= c.nodes);
                }
                return;
            },
        };
        let ghost s0 = entry@;
        proof {
            assert(c.nodes[coordinator as int].coordinating.contains_key(txn));
            assert(known[txn] == s0);
            assert(c.small_group(s0.participants));
        }
        if ok {
            entry.replies_ok.insert(participant);
        } else {
            entry.replies_bad.insert(participant);
        }
        let ghost s1 = entry@;
        let was_decided: bool = entry.decided;
        let all_ok: bool = same_nodes(&entry.replies_ok, &entry.participants);
        let some_bad: bool = !entry.replies_bad.is_empty();
        let begin_ts: Ts = entry.begin_ts;
        let prepare_ts: Ts = entry.prepare_ts;
        let reads: BTreeMap<Key, Value> = entry.reads.clone();
        let writes: BTreeMap<Key, Value> = entry.writes.clone();
        let participants: BTreeSet<NodeId> = entry.participants.clone();
        if !was_decided && (all_ok || some_bad) {
            entry.decided = true;
        }
        let ghost s2 = entry@;
        self.nodes[coordinator as usize].coordinating.insert(txn, entry);
        proof {
            let n = c.node(coordinator);
            assert(self.nodes@[coordinator as int]@.coordinating =~= n.coordinating.insert(txn, s2));
            assert(self@.nodes =~= c.with_coord(coordinator, txn, s2).nodes);
            assert(self@ =~= c.with_coord(coordinator, txn, s2));
        }
        let ghost decided = self@;
        if was_decided {
            return;
        }
        if all_ok {
            // Two conditions must hold to finalize a cross-partition commit and
            // stay serializable: the read set still validates, and no other
            // prepared transaction below this commit timestamp may write it.
            let blocked: bool = self.pending_blocks_reads(&reads, prepare_ts);
            if self.has_conflict(&reads, begin_ts) || blocked {
                self.decisions.insert(txn, Decision::RolledBack);
                self.pending_prepares.remove(&prepare_ts);
                proof {
                    assert(self@.pending_prepares =~= decided.pending_prepares.remove(prepare_ts));
                    assert(self@ =~= decided.resolved(txn, Decision::RolledBack, prepare_ts));
                }
                self.recompute_floor();
                let mut msg: String = String::new();
                msg.append("decide ROLLBACK (read conflict) txn=");
                text::push_dec(&mut msg, txn);
                assert(msg@ =~= "decide ROLLBACK (read conflict) txn="@ + text::dec(txn as nat));
                self.trace(msg);
                self.send_rollback(rng, network, coordinator, txn, &participants);
            } else {
                self.decisions.insert(txn, Decision::Committed(prepare_ts));
                // The decision is the atomic visibility point. Free the pending
                // hold first so the floor can advance, then apply.
                self.pending_prepares.remove(&prepare_ts);
                proof {
                    assert(self@.pending_prepares =~= decided.pending_prepares.remove(prepare_ts));
                    assert(self@ =~= decided.resolved(
                        txn,
                        Decision::Committed(prepare_ts),
                        prepare_ts,
                    ));
                }
                let mut msg: String = String::new();
                msg.append("decide COMMIT txn=");
                text::push_dec(&mut msg, txn);
                msg.append(" commit_ts=");
                text::push_dec(&mut msg, prepare_ts);
                assert(msg@ =~= "decide COMMIT txn="@ + text::dec(txn as nat) + " commit_ts="@
                    + text::dec(prepare_ts as nat));
                self.trace(msg);
                self.commit_writes_and_replicate(prepare_ts, &writes);
                self.record_commit(begin_ts, prepare_ts, reads, writes);
                let parts: Vec<NodeId> = ordered::members_u32(&participants);
                let commit = Msg::CommitPrepared { txn, commit_ts: prepare_ts };
                proof {
                    lemma_set_len(parts@, participants@);
                    let f = |p: NodeId| commit@;
                    let g = |p: NodeId| MsgView::CommitPrepared { txn, commit_ts: prepare_ts };
                    assert(f =~= g);
                }
                self.broadcast(rng, network, coordinator, &parts, &commit);
            }
        } else if some_bad {
            self.decisions.insert(txn, Decision::RolledBack);
            self.pending_prepares.remove(&prepare_ts);
            proof {
                assert(self@.pending_prepares =~= decided.pending_prepares.remove(prepare_ts));
                assert(self@ =~= decided.resolved(txn, Decision::RolledBack, prepare_ts));
            }
            let mut msg: String = String::new();
            msg.append("decide ROLLBACK txn=");
            text::push_dec(&mut msg, txn);
            assert(msg@ =~= "decide ROLLBACK txn="@ + text::dec(txn as nat));
            self.trace(msg);
            self.recompute_floor();
            self.send_rollback(rng, network, coordinator, txn, &participants);
        }
    }

    /// The undecided transactions past the prepare timeout, nodes and
    /// transactions ascending.
    fn expired(&self) -> (r: Vec<(NodeId, TxnId)>)
        requires
            self@.shaped(),
        ensures
            r@ == self@.expired(self@.num_partitions as nat),
    {
        let ghost c = self@;
        let mut r: Vec<(NodeId, TxnId)> = Vec::new();
        let mut node: u32 = 0;
        while node < self.num_partitions
            invariant
                node <= self.num_partitions,
                c == self@,
                c.shaped(),
                r@ == c.expired(node as nat),
            decreases self.num_partitions - node,
        {
            let ghost n = c.node(node);
            let ghost start = r@;
            assert(n == self.nodes@[node as int]@);
            let txns: Vec<TxnId> = ordered::keys_u64(&self.nodes[node as usize].coordinating);
            assert(n.coordinating.dom() =~= self.nodes@[node as int].coordinating@.dom());
            let ghost late = c.expired_on(node);
            let ghost mut found: Seq<TxnId> = seq![];
            let mut i: usize = 0;
            assert(start + found.map_values(|t: TxnId| (node, t)) =~= start);
            while i < txns.len()
                invariant
                    i <= txns.len(),
                    node < c.num_partitions,
                    c == self@,
                    c.shaped(),
                    n == c.node(node),
                    n == self.nodes@[node as int]@,
                    late == c.expired_on(node),
                    ordered::sorted_u64(txns@),
                    txns@.to_set() == n.coordinating.dom(),
                    ordered::sorted_u64(found),
                    forall|a: int|
                        0 <= a < found.len() && i < txns.len() ==> found[a] < txns@[i as int],
                    found.to_set() == txns@.take(i as int).to_set().intersect(late),
                    r@ == start + found.map_values(|t: TxnId| (node, t)),
                decreases txns.len() - i,
            {
                let t: TxnId = txns[i];
                let ghost found0 = found;
                assert(txns@.to_set().contains(t));
                assert(self.nodes@[node as int].coordinating@.contains_key(t)) by {
                    assert(n.coordinating.contains_key(t));
                }
                let is_late: bool = match self.nodes[node as usize].coordinating.get(&t) {
                    Some(s) => !s.decided && self.now > s.started_at && self.now - s.started_at
                        > PREPARE_TIMEOUT,
                    None => false,
                };
                proof {
                    assert(is_late == late.contains(t));
                    lemma_prefix_set(txns@, i as int);
                }
                if is_late {
                    r.push((node, t));
                    proof {
                        found = found.push(t);
                        assert(r@ =~= start + found.map_values(|t: TxnId| (node, t)));
                        assert forall|x: u64|
                            found.to_set().contains(x) == found0.to_set().insert(t).contains(x) by {
                            if found.to_set().contains(x) {
                                let m = choose|m: int| 0 <= m < found.len() && found[m] == x;
                                if m < found0.len() {
                                    assert(found0[m] == x);
                                }
                            }
                            if found0.to_set().contains(x) {
                                let m = choose|m: int| 0 <= m < found0.len() && found0[m] == x;
                                assert(found[m] == x);
                            }
                            assert(found[found0.len() as int] == t);
                        }
                        assert(found.to_set() =~= found0.to_set().insert(t));
                    }
                }
                proof {
                    assert(found.to_set() =~= txns@.take(i + 1).to_set().intersect(late));
                }
                i = i + 1;
            }
            proof {
                assert(txns@.take(i as int) =~= txns@);
                assert(found.to_set() =~= late);
                assert(late.finite());
                ordered::lemma_ascending_u64(late);
                ordered::lemma_sorted_unique_u64(found, ordered::ascending_u64(late));
                let f = |t: TxnId| (node, t);
                let g = |t: TxnId| (((node + 1) as nat - 1) as NodeId, t);
                assert(f =~= g);
                assert(r@ =~= c.expired((node + 1) as nat));
            }
            node = node + 1;
        }
        r
    }

    /// Rolls one expired transaction back.
    fn time_out(&mut self, rng: &mut Rng, network: &mut Network, node: NodeId, txn: TxnId)
        requires
            old(self)@.shaped(),
            old(self)@.paired(),
            node < old(self)@.num_partitions,
            old(self)@.node(node).coordinating.contains_key(txn),
            old(network)@.room(2),
            old(self)@.now + old(network)@.config.latency_bound() <= u64::MAX,
        ensures
            (World { cluster: final(self)@, net: final(network)@, rng: final(rng)@ }) == (World {
                cluster: old(self)@,
                net: old(network)@,
                rng: old(rng)@,
            }).timed_out(node, txn),
    {
        let ghost c = self@;
        let ghost n = c.node(node);
        assert(n == self.nodes@[node as int]@);
        match self.nodes[node as usize].coordinating.remove(&txn) {
            Some(taken) => {
                let mut entry: Coordinating = taken;
                let ghost s = entry@;
                proof {
                    assert(c.nodes[node as int].coordinating.contains_key(txn));
                    assert(s == n.coordinating[txn]);
                }
                let prepare_ts: Ts = entry.prepare_ts;
                let participants: BTreeSet<NodeId> = entry.participants.clone();
                entry.decided = true;
                let ghost s2 = entry@;
                self.nodes[node as usize].coordinating.insert(txn, entry);
                proof {
                    assert(self.nodes@[node as int]@.coordinating =~= n.coordinating.insert(
                        txn,
                        s2,
                    ));
                    assert(self@.nodes =~= c.with_coord(node, txn, s2).nodes);
                    assert(self@ =~= c.with_coord(node, txn, s2));
                }
                let ghost c1 = self@;
                if !self.decisions.contains_key(&txn) {
                    self.decisions.insert(txn, Decision::RolledBack);
                }
                self.pending_prepares.remove(&prepare_ts);
                proof {
                    let d = if c.decisions.contains_key(txn) {
                        c.decisions[txn]
                    } else {
                        Decision::RolledBack
                    };
                    assert(self@.pending_prepares =~= c1.pending_prepares.remove(prepare_ts));
                    assert(self@.decisions =~= c1.decisions.insert(txn, d));
                    assert(self@ =~= c1.resolved(txn, d, prepare_ts));
                }
                self.recompute_floor();
                let mut msg: String = String::new();
                msg.append("watcher ROLLBACK (timeout) txn=");
                text::push_dec(&mut msg, txn);
                assert(msg@ =~= "watcher ROLLBACK (timeout) txn="@ + text::dec(txn as nat));
                self.trace(msg);
                self.send_rollback(rng, network, node, txn, &participants);
            },
            None => {},
        }
    }

    /// Coordinator timeout handling and prepared-transaction recovery.
    fn run_watchers(&mut self, rng: &mut Rng, network: &mut Network)
        requires
            old(self)@.shaped(),
            old(self)@.paired(),
            old(network)@.room(2 * old(self)@.expired(old(self)@.num_partitions as nat).len()),
            old(self)@.now + old(network)@.config.latency_bound() <= u64::MAX,
        ensures
            (World { cluster: final(self)@, net: final(network)@, rng: final(rng)@ }) == (World {
                cluster: old(self)@,
                net: old(network)@,
                rng: old(rng)@,
            }).watched(),
    {
        let ghost w = World { cluster: self@, net: network@, rng: rng@ };
        let ghost c = self@;
        let late: Vec<(NodeId, TxnId)> = self.expired();
        proof {
            assert forall|a: int| 0 <= a < c.nodes.len() implies (
            #[trigger] c.nodes[a]).coordinating.dom().finite() by {
                assert(c.nodes[a] == self.nodes@[a]@);
                assert(c.nodes[a].coordinating.dom() =~= self.nodes@[a].coordinating@.dom());
            }
            lemma_expired_listed(c, c.num_partitions as nat);
            assert(late@.take(0) =~= seq![]);
        }
        let mut i: usize = 0;
        while i < late.len()
            invariant
                i <= late.len(),
                self@.shaped(),
                self@.paired(),
                self@.num_partitions == c.num_partitions,
                self@.now + network@.config.latency_bound() <= u64::MAX,
                forall|a: int|
                    0 <= a < late.len() ==> (#[trigger] late@[a]).0 < c.num_partitions
                        && self@.nodes[late@[a].0 as int].coordinating.contains_key(late@[a].1),
                network@.room((2 * (late.len() - i)) as nat),
                (World { cluster: self@, net: network@, rng: rng@ }) == w.all_timed_out(
                    late@.take(i as int),
                ),
            decreases late.len() - i,
        {
            let (node, txn) = late[i];
            let ghost before = World { cluster: self@, net: network@, rng: rng@ };
            proof {
                assert(late@[i as int].0 < c.num_partitions);
                assert(late@.take(i + 1).drop_last() =~= late@.take(i as int));
                lemma_timed_out_frame(before, node, txn, (2 * (late.len() - i - 1)) as nat);
            }
            self.time_out(rng, network, node, txn);
            proof {
                let after = before.timed_out(node, txn);
                assert forall|a: int| 0 <= a < late.len() implies (#[trigger] late@[a]).0
                    < c.num_partitions && self@.nodes[late@[a].0 as int].coordinating.contains_key(
                    late@[a].1,
                ) by {
                    assert(after.cluster.nodes[late@[a].0 as int].coordinating.contains_key(
                        late@[a].1,
                    ) == before.cluster.nodes[late@[a].0 as int].coordinating.contains_key(
                        late@[a].1,
                    ));
                }
            }
            i = i + 1;
        }
        assert(late@.take(i as int) =~= late@);
        // Participant recovery: resolve durable prepared entries against the
        // decision log. Application already happened at the commit decision, so
        // commit and rollback both just clear the entry.
        let ghost r = self@;
        let mut j: usize = 0;
        while j < self.nodes.len()
            invariant
                j <= self.nodes.len(),
                self@ == (ClusterState { nodes: self@.nodes, ..r }),
                self@.nodes.len() == r.nodes.len(),
                self.nodes.len() == r.nodes.len(),
                forall|a: int|
                    0 <= a < j ==> #[trigger] self@.nodes[a] == r.recovered().nodes[a],
                forall|a: int| j <= a < r.nodes.len() ==> #[trigger] self@.nodes[a] == r.nodes[a],
            decreases self.nodes.len() - j,
        {
            let ghost mid = self@.nodes;
            assert(mid[j as int] == self.nodes@[j as int]@);
            if self.nodes[j].up {
                self.nodes[j].drop_resolved(&self.decisions);
            }
            proof {
                assert(self@.nodes =~= mid.update(j as int, r.recovered().nodes[j as int]));
            }
            j = j + 1;
        }
        assert(self@.nodes =~= r.recovered().nodes);
        assert(self@ =~= r.recovered());
    }

    /// The background processes of one tick.
    pub fn tick_background(&mut self, rng: &mut Rng, network: &mut Network)
        requires
            old(self)@.shaped(),
            old(self)@.paired(),
            old(network)@.room(2 * old(self)@.expired(old(self)@.num_partitions as nat).len()),
            old(self)@.now + old(network)@.config.latency_bound() <= u64::MAX,
        ensures
            (World { cluster: final(self)@, net: final(network)@, rng: final(rng)@ }) == (World {
                cluster: old(self)@,
                net: old(network)@,
                rng: old(rng)@,
            }).watched(),
    {
        self.run_watchers(rng, network);
    }

    pub fn set_now(&mut self, now: SimTime)
        ensures
            final(self)@ == (ClusterState { now, ..old(self)@ }),
    {
        self.now = now;
    }

    /// The recorded outcome of `txn`.
    pub fn decision(&self, txn: TxnId) -> (r: Option<&Decision>)
        ensures
            r == (if self@.decisions.contains_key(txn) {
                Some(&self@.decisions[txn])
            } else {
                None
            }),
    {
        self.decisions.get(&txn)
    }

    /// Latest committed version of `key` on its owner.
    pub fn owner_value(&self, key: Key) -> (r: Option<(Ts, Value)>)
        requires
            self@.num_partitions > 0,
            self@.staffed(),
        ensures
            r == self@.latest(key),
    {
        self.latest(key)
    }

    /// The replicated version of `key` on `node`.
    pub fn replica_value(&self, node: NodeId, key: Key) -> (r: Option<(Ts, Value)>)
        requires
            self@.staffed(),
            node < self@.num_partitions,
        ensures
            r == self@.replica_of(node, key),
    {
        assert(self@.node(node) == self.nodes@[node as int]@);
        match self.nodes[node as usize].replica.get(&key) {
            Some(slot) => Some(*slot),
            None => None,
        }
    }

    pub fn owner_of(&self, key: Key) -> (r: NodeId)
        requires
            self@.num_partitions > 0,
        ensures
            r == self@.owner(key),
    {
        self.owner(key)
    }
}

/// Every listed transaction is coordinated where the list says.
proof fn lemma_expired_listed(c: ClusterState, m: nat)
    requires
        c.shaped(),
        m <= c.num_partitions,
        forall|i: int| 0 <= i < c.nodes.len() ==> (#[trigger] c.nodes[i]).coordinating.dom().finite(),
    ensures
        forall|a: int|
            0 <= a < c.expired(m).len() ==> (#[trigger] c.expired(m)[a]).0 < m
                && c.expired_on(c.expired(m)[a].0).contains(c.expired(m)[a].1)
                && c.nodes[c.expired(m)[a].0 as int].coordinating.contains_key(
                c.expired(m)[a].1,
            ),
    decreases m,
{
    if m > 0 {
        lemma_expired_listed(c, (m - 1) as nat);
        let prev = c.expired((m - 1) as nat);
        let i = (m - 1) as NodeId;
        assert(c.nodes[i as int].coordinating.dom().finite());
        let q = ordered::ascending_u64(c.expired_on(i));
        ordered::lemma_ascending_u64(c.expired_on(i));
        assert forall|a: int| 0 <= a < c.expired(m).len() implies (#[trigger] c.expired(m)[a]).0
            < m && c.expired_on(c.expired(m)[a].0).contains(c.expired(m)[a].1)
            && c.nodes[c.expired(m)[a].0 as int].coordinating.contains_key(
            c.expired(m)[a].1,
        ) by {
            if a < prev.len() {
                assert(c.expired(m)[a] == prev[a]);
            } else {
                assert(c.expired(m)[a] == (i, q[a - prev.len()]));
                assert(q.to_set().contains(q[a - prev.len()]));
            }
        }
    }
}

} // verus!
