//! Everything that can be done to a cluster, and what holds after any of it, in
//! any order and however often.
use crate::model::invariants;
use crate::model::preservation;
use crate::model::record;
use crate::model::record::{apart, same_nodes};
use crate::model::safety;
use crate::model::state;
use crate::model::state::{ClusterState, CoordState, Decision, TxnState, World, QUIESCE_TICKS};
use crate::model::world;
use crate::network::{EnvelopeView, MsgView, NetState, NetworkConfig};
use crate::ordered;
use crate::rng::RngState;
use crate::text;
use crate::types::{Key, NodeId, SimTime, Ts, TxnId, Value};
use vstd::prelude::*;

verus! {

/// One thing that is done to a cluster and its network.
pub enum Operation {
    /// A tick begins, and everything due is delivered.
    Tick(SimTime),
    /// One envelope is delivered.
    Deliver(EnvelopeView),
    Crash(NodeId),
    Restart(NodeId),
    /// A new placement version comes out, and these nodes learn of it.
    BumpPlacement(Seq<NodeId>),
    /// A transaction is tried, from this node.
    Transact(NodeId),
    Subscribe(NodeId),
    /// The background processes run.
    Watch,
    /// Every node that is up and connected replays the log.
    Replicate,
    /// From now on these nodes are isolated.
    Isolate(Set<NodeId>),
    /// The network heals, every node restarts, and everything drains.
    Quiesce,
}

impl World {
    /// A cluster of `n` partitions that has done nothing yet.
    pub open spec fn untouched(n: u32, config: NetworkConfig, seed: u64) -> World {
        World {
            cluster: ClusterState::fresh(n),
            net: NetState::fresh(config),
            rng: RngState::fresh(seed),
        }
    }

    /// What an operation asks for: nodes that there are, time that does not run
    /// backwards, envelopes that the network accounts for, and counters that do not
    /// overflow.
    pub open spec fn allows(self, op: Operation) -> bool {
        let n = self.cluster.num_partitions;
        match op {
            Operation::Tick(now) => self.cluster.now <= now,
            Operation::Deliver(e) => self.inv(seq![e]),
            Operation::Crash(node) => node < n,
            Operation::Restart(node) => node < n,
            Operation::BumpPlacement(refreshed) => self.cluster.placement_version < u64::MAX,
            Operation::Transact(node) => node < n && 2 * self.cluster.tso_next + 2 <= u64::MAX,
            Operation::Subscribe(node) => node < n,
            Operation::Watch => true,
            Operation::Replicate => true,
            Operation::Isolate(_) => true,
            Operation::Quiesce => self.cluster.now + QUIESCE_TICKS <= u64::MAX,
        }
    }

    /// What an operation leads to.
    pub open spec fn done(self, op: Operation) -> World {
        match op {
            Operation::Tick(now) => self.ticked(now),
            Operation::Deliver(e) => self.delivered(e.to, e.msg),
            Operation::Crash(node) => self.on(self.cluster.crashed(node)),
            Operation::Restart(node) => self.on(self.cluster.restarted(node)),
            Operation::BumpPlacement(refreshed) => self.on(
                self.cluster.placement_bumped(refreshed),
            ),
            Operation::Transact(node) => self.transacted(node),
            Operation::Subscribe(node) => self.subscription_added(node),
            Operation::Watch => self.watched(),
            Operation::Replicate => self.synced(),
            Operation::Isolate(nodes) => World {
                net: NetState { isolated: nodes, ..self.net },
                ..self
            },
            Operation::Quiesce => self.quiesced(),
        }
    }

    /// What operations lead to, one after the other.
    pub open spec fn done_all(self, ops: Seq<Operation>) -> World
        decreases ops.len(),
    {
        if ops.len() == 0 {
            self
        } else {
            self.done_all(ops.drop_last()).done(ops.last())
        }
    }

    /// Each of the operations gets what it asks for.
    pub open spec fn allows_all(self, ops: Seq<Operation>) -> bool
        decreases ops.len(),
    {
        ops.len() == 0 || (self.allows_all(ops.drop_last()) && self.done_all(
            ops.drop_last(),
        ).allows(ops.last()))
    }
}

proof fn lemma_replied_record(
    w: World,
    coordinator: NodeId,
    txn: TxnId,
    participant: NodeId,
    ok: bool,
    rest: Seq<EnvelopeView>,
)
    requires
        w.inv(rest),
        coordinator < w.cluster.num_partitions,
    ensures
        w.cluster.leads_to(w.replied(coordinator, txn, participant, ok).cluster),
{
    let c = w.cluster;
    let known = c.node(coordinator).coordinating;
    let s0 = known[txn];
    let s1 = CoordState {
        replies_ok: if ok {
            s0.replies_ok.insert(participant)
        } else {
            s0.replies_ok
        },
        replies_bad: if ok {
            s0.replies_bad
        } else {
            s0.replies_bad.insert(participant)
        },
        ..s0
    };
    let s2 = CoordState { decided: true, ..s1 };
    let ts = s0.prepare_ts;
    let decided = c.with_coord(coordinator, txn, s2);
    let ci = coordinator as int;
    let parts = ordered::ascending_u32(s0.participants);
    if !known.contains_key(txn) {
        record::lemma_quiet_step(c, c);
    } else if s0.decided || !(s1.replies_ok == s0.participants || !s1.replies_bad.is_empty()) {
        let r = c.with_coord(coordinator, txn, s1);
        assert(same_nodes(c, r));
        record::lemma_quiet_step(c, r);
    } else {
        assert(c.nodes[ci].coordinating.contains_key(txn));
        assert(c.nodes[ci].undecided(txn));
        assert(!c.decisions.contains_key(txn));
        if s1.replies_ok == s0.participants {
            if decided.has_conflict(s0.reads, s0.begin_ts) || decided.pending_blocks(s0.reads, ts) {
                let c1 = decided.resolved(txn, Decision::RolledBack, ts).refloored().traced(
                    "decide ROLLBACK (read conflict) txn="@ + text::dec(txn as nat),
                );
                lemma_gave_up(c, coordinator, txn, s2, Decision::RolledBack, c1);
                world::lemma_sent_cluster(
                    w.on(c1),
                    coordinator,
                    parts,
                    |p: NodeId| MsgView::RollbackPrepared { txn },
                );
            } else {
                let e1 = decided.resolved(txn, Decision::Committed(ts), ts).traced(
                    "decide COMMIT txn="@ + text::dec(txn as nat) + " commit_ts="@ + text::dec(
                        ts as nat,
                    ),
                );
                let c1 = e1.applied(ts, s0.writes).recorded(
                    s0.begin_ts,
                    ts,
                    s0.reads,
                    s0.writes,
                );
                let t = TxnState {
                    id: c.next_txn_record,
                    begin_ts: s0.begin_ts,
                    commit_ts: ts,
                    reads: s0.reads,
                    writes: s0.writes,
                };
                lemma_landed_nodes(c, e1, ts, s0.writes, c1);
                assert forall|h: int| 0 <= h < c.history.len() implies (
                #[trigger] c.history[h]).commit_ts != ts by {
                    assert(c.pending_prepares.contains_key(ts));
                    assert(!c.pending_prepares.contains_key(c.history[h].commit_ts));
                }
                assert(c1.has_committed(txn));
                assert forall|u: TxnId, writes: Map<Key, Value>| #[trigger]
                    c.tied(u, writes) && !c1.has_committed(u) implies apart(t.writes, writes) by {
                    assert(c.nodes[ci].coordinating.contains_key(txn));
                }
                assert forall|k: Key| #[trigger] t.writes.contains_key(k) implies (c.on_record()
                    ==> t.writes[k] < c1.next_value) by {
                    if c.on_record() {
                        assert(c.tied(txn, c.nodes[ci].coordinating[txn].writes));
                    }
                }
                record::lemma_commit_step(c, c1, t);
                world::lemma_sent_cluster(
                    w.on(c1),
                    coordinator,
                    parts,
                    |p: NodeId| MsgView::CommitPrepared { txn, commit_ts: ts },
                );
            }
        } else {
            let c1 = decided.resolved(txn, Decision::RolledBack, ts).traced(
                "decide ROLLBACK txn="@ + text::dec(txn as nat),
            ).refloored();
            lemma_gave_up(c, coordinator, txn, s2, Decision::RolledBack, c1);
            world::lemma_sent_cluster(
                w.on(c1),
                coordinator,
                parts,
                |p: NodeId| MsgView::RollbackPrepared { txn },
            );
        }
    }
}

/// Giving a transaction up, or leaving it as it was decided.
proof fn lemma_gave_up(
    c: ClusterState,
    node: NodeId,
    txn: TxnId,
    entry: CoordState,
    d: Decision,
    r: ClusterState,
)
    requires
        c.inv(),
        node < c.num_partitions,
        c.node(node).coordinating.contains_key(txn),
        entry.writes == c.node(node).coordinating[txn].writes,
        d == if c.decisions.contains_key(txn) {
            c.decisions[txn]
        } else {
            Decision::RolledBack
        },
        ({
            let f = c.with_coord(node, txn, entry).resolved(txn, d, entry.prepare_ts).refloored();
            r == (ClusterState { trace: r.trace, ..f })
        }),
    ensures
        c.leads_to(r),
{
    assert(same_nodes(c, r));
    assert forall|t: TxnId| #[trigger] r.has_committed(t) implies c.has_committed(t) by {}
    record::lemma_quiet_step(c, r);
}

/// Landing a commit moves nothing that the record speaks of, on any node.
proof fn lemma_landed_nodes(
    c: ClusterState,
    e: ClusterState,
    ts: Ts,
    writes: Map<Key, Value>,
    r: ClusterState,
)
    requires
        same_nodes(c, e),
        c.nodes.len() == c.num_partitions,
        r.num_partitions == e.num_partitions,
        r.nodes == e.landed(ts, writes).nodes,
    ensures
        same_nodes(c, r),
{
    assert forall|i: int| 0 <= i < c.nodes.len() implies ({
        let (a, b) = (#[trigger] r.nodes[i], c.nodes[i]);
        &&& a.placement_version == b.placement_version
        &&& a.replica == b.replica
        &&& a.cursor == b.cursor
    }) by {
        assert(e.nodes[i].cursor == c.nodes[i].cursor);
    }
    assert forall|i: int, t: TxnId|
        0 <= i < c.nodes.len() && #[trigger] r.nodes[i].coordinating.contains_key(
            t,
        ) implies c.nodes[i].coordinating.contains_key(t) && r.nodes[i].coordinating[t].writes
        == c.nodes[i].coordinating[t].writes by {
        assert(e.nodes[i].coordinating.contains_key(t));
    }
}

proof fn lemma_delivered_record(w: World, q: Seq<EnvelopeView>)
    requires
        w.inv(q),
        q.len() > 0,
    ensures
        w.cluster.leads_to(w.delivered(q[0].to, q[0].msg).cluster),
{
    let c = w.cluster;
    let to = q[0].to;
    assert(c.expects(q[0]));
    record::lemma_quiet_step(c, c);
    if c.node(to).up {
        match q[0].msg {
            MsgView::Prepare { txn, coordinator, prepare_ts, writes, placement_version } => {
                let ok = c.accepts(to, prepare_ts, placement_version);
                let c1 = if ok {
                    c.intent_stored(to, txn, writes)
                } else {
                    c
                };
                assert(same_nodes(c, c1));
                record::lemma_quiet_step(c, c1);
                world::lemma_sent_cluster(
                    w.on(c1),
                    to,
                    seq![coordinator],
                    |p: NodeId| MsgView::PrepareReply { txn, participant: to, ok },
                );
            },
            MsgView::PrepareReply { txn, participant, ok } => {
                lemma_replied_record(w, to, txn, participant, ok, q);
            },
            MsgView::CommitPrepared { txn, commit_ts } => {
                assert(same_nodes(c, c.intent_cleared(to, txn)));
                record::lemma_quiet_step(c, c.intent_cleared(to, txn));
            },
            MsgView::RollbackPrepared { txn } => {
                assert(same_nodes(c, c.intent_cleared(to, txn)));
                record::lemma_quiet_step(c, c.intent_cleared(to, txn));
            },
        }
    }
}

proof fn lemma_all_delivered_record(w: World, q: Seq<EnvelopeView>, j: nat)
    requires
        w.inv(q),
        j <= q.len(),
    ensures
        w.cluster.leads_to(w.all_delivered(q.take(j as int)).cluster),
    decreases j,
{
    if j == 0 {
        assert(q.take(0) =~= seq![]);
        record::lemma_quiet_step(w.cluster, w.cluster);
    } else {
        let m = (j - 1) as nat;
        lemma_all_delivered_record(w, q, m);
        world::lemma_all_delivered(w, q, m);
        let p = w.all_delivered(q.take(m as int));
        assert(q.take(j as int).drop_last() =~= q.take(m as int));
        assert(q.skip(m as int)[0] == q[m as int]);
        lemma_delivered_record(p, q.skip(m as int));
        record::lemma_leads_on(
            w.cluster,
            p.cluster,
            w.all_delivered(q.take(j as int)).cluster,
        );
    }
}

proof fn lemma_ticked_record(w: World, now: SimTime)
    requires
        w.inv(seq![]),
        w.cluster.now <= now,
    ensures
        w.cluster.leads_to(w.ticked(now).cluster),
{
    let begun = World {
        cluster: ClusterState { now, ..w.cluster },
        net: w.net.without_due(now as nat),
        rng: w.rng,
    };
    let due = w.net.due(now as nat);
    world::lemma_tick_begun(w, now);
    assert(same_nodes(w.cluster, begun.cluster));
    record::lemma_quiet_step(w.cluster, begun.cluster);
    lemma_all_delivered_record(begun, due, due.len());
    assert(due.take(due.len() as int) =~= due);
    record::lemma_leads_on(w.cluster, begun.cluster, w.ticked(now).cluster);
}

proof fn lemma_timed_out_record(w: World, node: NodeId, txn: TxnId)
    requires
        w.inv(seq![]),
        node < w.cluster.num_partitions,
        w.cluster.node(node).undecided(txn),
    ensures
        w.cluster.leads_to(w.timed_out(node, txn).cluster),
{
    let c = w.cluster;
    let s = c.node(node).coordinating[txn];
    let d = if c.decisions.contains_key(txn) {
        c.decisions[txn]
    } else {
        Decision::RolledBack
    };
    let entry = CoordState { decided: true, ..s };
    let c1 = c.with_coord(node, txn, entry).resolved(txn, d, s.prepare_ts).refloored().traced(
        "watcher ROLLBACK (timeout) txn="@ + text::dec(txn as nat),
    );
    lemma_gave_up(c, node, txn, entry, d, c1);
    world::lemma_sent_cluster(
        w.on(c1),
        node,
        ordered::ascending_u32(s.participants),
        |p: NodeId| MsgView::RollbackPrepared { txn },
    );
}

proof fn lemma_all_timed_out_record(w: World, j: nat)
    requires
        w.inv(seq![]),
        j <= w.cluster.expired(w.cluster.num_partitions as nat).len(),
    ensures
        w.cluster.leads_to(
            w.all_timed_out(
                w.cluster.expired(w.cluster.num_partitions as nat).take(j as int),
            ).cluster,
        ),
    decreases j,
{
    let list = w.cluster.expired(w.cluster.num_partitions as nat);
    if j == 0 {
        assert(list.take(0) =~= seq![]);
        record::lemma_quiet_step(w.cluster, w.cluster);
    } else {
        let m = (j - 1) as nat;
        lemma_all_timed_out_record(w, m);
        world::lemma_all_timed_out(w, m);
        world::lemma_expired(w.cluster, w.cluster.num_partitions as nat);
        let p = w.all_timed_out(list.take(m as int));
        let (node, txn) = list[m as int];
        assert(list.take(j as int).drop_last() =~= list.take(m as int));
        assert(list.take(j as int).last() == (node, txn));
        assert(p.cluster.nodes[list[m as int].0 as int].undecided(list[m as int].1));
        lemma_timed_out_record(p, node, txn);
        record::lemma_leads_on(
            w.cluster,
            p.cluster,
            w.all_timed_out(list.take(j as int)).cluster,
        );
    }
}

proof fn lemma_watched_record(w: World)
    requires
        w.inv(seq![]),
    ensures
        w.cluster.leads_to(w.watched().cluster),
{
    let list = w.cluster.expired(w.cluster.num_partitions as nat);
    lemma_all_timed_out_record(w, list.len());
    world::lemma_all_timed_out(w, list.len());
    assert(list.take(list.len() as int) =~= list);
    let p = w.all_timed_out(list);
    let r = p.cluster.recovered();
    assert(same_nodes(p.cluster, r));
    record::lemma_quiet_step(p.cluster, r);
    record::lemma_leads_on(w.cluster, p.cluster, r);
}

proof fn lemma_replicated_record(w: World, m: nat)
    requires
        w.inv(seq![]),
        m <= w.cluster.num_partitions,
    ensures
        w.cluster.leads_to(w.cluster.replicated(w.net.isolated, m)),
    decreases m,
{
    if m == 0 {
        record::lemma_quiet_step(w.cluster, w.cluster);
    } else {
        let j = (m - 1) as nat;
        lemma_replicated_record(w, j);
        world::lemma_replicated(w, j);
        let p = w.cluster.replicated(w.net.isolated, j);
        record::lemma_replay_step(p, j as NodeId);
        record::lemma_leads_on(w.cluster, p, p.replayed(j as NodeId));
    }
}

proof fn lemma_restarted_record(w: World, node: NodeId)
    requires
        w.inv(seq![]),
        node < w.cluster.num_partitions,
    ensures
        w.cluster.leads_to(w.cluster.restarted(node)),
{
    assert(same_nodes(w.cluster, w.cluster.restarted(node)));
    record::lemma_quiet_step(w.cluster, w.cluster.restarted(node));
}

proof fn lemma_restarted_all_record(w: World, m: nat)
    requires
        w.inv(seq![]),
        m <= w.cluster.num_partitions,
    ensures
        w.cluster.leads_to(w.cluster.restarted_all(m)),
    decreases m,
{
    if m == 0 {
        record::lemma_quiet_step(w.cluster, w.cluster);
    } else {
        let j = (m - 1) as nat;
        lemma_restarted_all_record(w, j);
        world::lemma_restarted_all(w, j);
        let p = w.on(w.cluster.restarted_all(j));
        lemma_restarted_record(p, j as NodeId);
        record::lemma_leads_on(w.cluster, p.cluster, p.cluster.restarted(j as NodeId));
    }
}

proof fn lemma_drained_record(w: World, t0: SimTime, fuel: nat)
    requires
        w.inv(seq![]),
        w.winding_down(t0),
        w.cluster.now + fuel <= u64::MAX,
    ensures
        w.cluster.leads_to(w.drained(fuel).cluster),
    decreases fuel,
{
    if fuel == 0 {
        record::lemma_quiet_step(w.cluster, w.cluster);
    } else {
        let now = (w.cluster.now + 1) as u64;
        let w1 = w.ticked(now);
        lemma_ticked_record(w, now);
        world::lemma_ticked(w, now);
        let w2 = w1.watched();
        lemma_watched_record(w1);
        world::lemma_watched(w1);
        lemma_replicated_record(w2, w2.cluster.num_partitions as nat);
        let r = w.drained_once();
        record::lemma_leads_on(w.cluster, w1.cluster, w2.cluster);
        record::lemma_leads_on(w.cluster, w2.cluster, r.cluster);
        world::lemma_drained_once(w, t0);
        if !r.is_quiet() {
            lemma_drained_record(r, t0, (fuel - 1) as nat);
            record::lemma_leads_on(
                w.cluster,
                r.cluster,
                r.drained((fuel - 1) as nat).cluster,
            );
        }
    }
}

proof fn lemma_quiesced_record(w: World)
    requires
        w.inv(seq![]),
        w.cluster.now + QUIESCE_TICKS <= u64::MAX,
    ensures
        w.cluster.leads_to(w.quiesced().cluster),
{
    let w1 = World {
        cluster: w.cluster.restarted_all(w.cluster.num_partitions as nat),
        net: NetState { isolated: Set::empty(), ..w.net },
        rng: w.rng,
    };
    lemma_restarted_all_record(w, w.cluster.num_partitions as nat);
    world::lemma_quiesce_begun(w, w1);
    lemma_drained_record(w1, w.cluster.now, QUIESCE_TICKS as nat);
    record::lemma_leads_on(w.cluster, w1.cluster, w.quiesced().cluster);
}

proof fn lemma_single_record(c: ClusterState, reads: Map<Key, Value>, write_keys: Set<Key>)
    requires
        c.inv(),
        c.tso_next < u64::MAX,
        write_keys.finite(),
        write_keys.len() <= 2,
        c.next_value + 2 <= u64::MAX,
    ensures
        c.leads_to(c.single_committed(c.committed_floor, reads, write_keys)),
{
    let begin = c.committed_floor;
    let owner = c.owner(ordered::least_u32(write_keys));
    let ts = c.next_ts();
    let s1 = c.allocated();
    let keys = ordered::ascending_u32(write_keys);
    let writes = state::numbered(keys, c.next_value);
    let r = c.single_committed(begin, reads, write_keys);
    ordered::lemma_ascending_u32(write_keys);
    crate::model::lemma_set_len(keys, write_keys);
    preservation::lemma_numbered(keys, c.next_value);
    record::lemma_numbered_values(keys, c.next_value);
    if write_keys.is_empty() || !c.node(owner).up || c.has_conflict(reads, begin) {
        record::lemma_quiet_step(c, c);
    } else if s1.pending_blocks(reads, ts) {
        assert(same_nodes(c, s1));
        record::lemma_quiet_step(c, s1);
    } else {
        let s2 = ClusterState { next_value: (c.next_value + keys.len()) as u64, ..s1 };
        let msg = "commit 1P owner="@ + text::dec(owner as nat) + " begin="@ + text::dec(
            begin as nat,
        ) + " commit="@ + text::dec(ts as nat) + " keys="@ + text::list_text("["@, keys, "]"@);
        let s3 = s2.traced(msg);
        assert(same_nodes(c, s3));
        lemma_landed_nodes(c, s3, ts, writes, r);
        let t = TxnState { id: c.next_txn_record, begin_ts: begin, commit_ts: ts, reads, writes };
        assert forall|h: int| 0 <= h < c.history.len() implies (
        #[trigger] c.history[h]).commit_ts != ts by {
            assert(c.history[h].commit_ts <= c.max_applied);
        }
        assert forall|u: TxnId, other: Map<Key, Value>| #[trigger]
            c.tied(u, other) && !r.has_committed(u) implies apart(t.writes, other) by {
            assert forall|j: Key, k: Key| #[trigger]
                writes.contains_key(j) && #[trigger] other.contains_key(k) implies writes[j]
                != other[k] by {
                assert(other[k] < c.next_value);
            }
        }
        record::lemma_commit_step(c, r, t);
    }
}

proof fn lemma_transacted_record(w: World, origin: NodeId)
    requires
        w.inv(seq![]),
        origin < w.cluster.num_partitions,
        2 * w.cluster.tso_next + 2 <= u64::MAX,
    ensures
        w.cluster.leads_to(w.transacted(origin).cluster),
{
    let c = w.cluster;
    let (n_reads, r1) = w.rng.int_in(1, 3);
    let (n_writes, r2) = r1.int_in(1, 2);
    let (ok, reads, r3) = state::drawn_reads(c, r2, c.committed_floor, n_reads as nat);
    let (write_keys, r4) = state::drawn_keys(r3, c.key_space(), n_writes as nat);
    let owners = state::owners(c.num_partitions, write_keys);
    world::lemma_drawn_keys(r3, c.key_space(), n_writes as nat);
    record::lemma_quiet_step(c, c);
    if c.node(origin).up && ok {
        if owners.len() <= 1 {
            lemma_single_record(c, reads, write_keys);
        } else if !c.has_conflict(reads, c.committed_floor) {
            let keys = ordered::ascending_u32(write_keys);
            let parts = ordered::ascending_u32(owners);
            let writes = state::numbered(keys, c.next_value);
            let txn = c.next_txn;
            let ts = c.next_ts();
            ordered::lemma_ascending_u32(write_keys);
            crate::model::lemma_set_len(keys, write_keys);
            record::lemma_numbered_values(keys, c.next_value);
            let c1 = ClusterState {
                next_txn: (c.next_txn + 1) as u64,
                pending_prepares: c.pending_prepares.insert(ts, write_keys),
                next_value: (c.next_value + keys.len()) as u64,
                ..c.allocated()
            }.traced(
                "begin 2PC txn="@ + text::dec(txn as nat) + " coord="@ + text::dec(origin as nat)
                    + " parts="@ + text::list_text("{"@, parts, "}"@) + " prepare_ts="@ + text::dec(
                    ts as nat,
                ),
            ).with_coord(
                origin,
                txn,
                CoordState {
                    begin_ts: c.committed_floor,
                    prepare_ts: ts,
                    started_at: c.now,
                    participants: owners,
                    replies_ok: Set::empty(),
                    replies_bad: Set::empty(),
                    reads,
                    writes,
                    decided: false,
                },
            );
            record::lemma_begin_step(c, c1, origin, writes);
            world::lemma_sent_cluster(
                World { rng: r4, ..w }.on(c1),
                origin,
                parts,
                |p: NodeId|
                    MsgView::Prepare {
                        txn,
                        coordinator: origin,
                        prepare_ts: ts,
                        writes: state::slice(c.num_partitions, writes, p),
                        placement_version: c.placement_version,
                    },
            );
        }
    }
}

/// Whatever is done leads on.
proof fn lemma_done(w: World, op: Operation)
    requires
        w.inv(seq![]),
        w.allows(op),
    ensures
        w.done(op).inv(seq![]),
        w.cluster.leads_to(w.done(op).cluster),
{
    let c = w.cluster;
    match op {
        Operation::Tick(now) => {
            world::lemma_ticked(w, now);
            lemma_ticked_record(w, now);
        },
        Operation::Deliver(e) => {
            world::lemma_delivered(w, seq![e]);
            lemma_delivered_record(w, seq![e]);
            assert(seq![e].skip(1) =~= seq![]);
        },
        Operation::Crash(node) => {
            world::lemma_crash(w, node);
            let r = c.crashed(node);
            assert(same_nodes(c, r));
            assert forall|t: TxnId| #[trigger] r.has_committed(t) implies c.has_committed(t) by {}
            record::lemma_quiet_step(c, r);
        },
        Operation::Restart(node) => {
            world::lemma_restarted(w, node, seq![]);
            lemma_restarted_record(w, node);
        },
        Operation::BumpPlacement(refreshed) => {
            world::lemma_bumped(w, refreshed);
            record::lemma_bump_step(c, refreshed);
        },
        Operation::Transact(node) => {
            world::lemma_transacted(w, node);
            lemma_transacted_record(w, node);
        },
        Operation::Subscribe(node) => {
            world::lemma_subscription_added(w, node);
            let r = w.done(op).cluster;
            assert(same_nodes(c, r));
            record::lemma_quiet_step(c, r);
        },
        Operation::Watch => {
            world::lemma_watched(w);
            lemma_watched_record(w);
        },
        Operation::Replicate => {
            world::lemma_replicated(w, c.num_partitions as nat);
            lemma_replicated_record(w, c.num_partitions as nat);
        },
        Operation::Isolate(nodes) => {
            record::lemma_quiet_step(c, c);
        },
        Operation::Quiesce => {
            world::lemma_quiesced(w);
            lemma_quiesced_record(w);
        },
    }
}

/// However much is done, it leads on.
proof fn lemma_done_all(w: World, ops: Seq<Operation>)
    requires
        w.inv(seq![]),
        w.allows_all(ops),
    ensures
        w.done_all(ops).inv(seq![]),
        w.cluster.leads_to(w.done_all(ops).cluster),
    decreases ops.len(),
{
    if ops.len() == 0 {
        record::lemma_quiet_step(w.cluster, w.cluster);
    } else {
        lemma_done_all(w, ops.drop_last());
        let p = w.done_all(ops.drop_last());
        lemma_done(p, ops.last());
        record::lemma_leads_on(w.cluster, p.cluster, w.done_all(ops).cluster);
    }
}

proof fn lemma_replied_partitions(w: World, to: NodeId, txn: TxnId, participant: NodeId, ok: bool)
    ensures
        w.replied(to, txn, participant, ok).cluster.num_partitions == w.cluster.num_partitions,
{
    let c = w.cluster;
    let s0 = c.node(to).coordinating[txn];
    let s1 = CoordState {
        replies_ok: if ok {
            s0.replies_ok.insert(participant)
        } else {
            s0.replies_ok
        },
        replies_bad: if ok {
            s0.replies_bad
        } else {
            s0.replies_bad.insert(participant)
        },
        ..s0
    };
    let ts = s0.prepare_ts;
    let parts = ordered::ascending_u32(s0.participants);
    let decided = c.with_coord(to, txn, CoordState { decided: true, ..s1 });
    world::lemma_sent_cluster(
        w.on(
            decided.resolved(txn, Decision::RolledBack, ts).refloored().traced(
                "decide ROLLBACK (read conflict) txn="@ + text::dec(txn as nat),
            ),
        ),
        to,
        parts,
        |p: NodeId| MsgView::RollbackPrepared { txn },
    );
    world::lemma_sent_cluster(
        w.on(
            decided.resolved(txn, Decision::Committed(ts), ts).traced(
                "decide COMMIT txn="@ + text::dec(txn as nat) + " commit_ts="@ + text::dec(
                    ts as nat,
                ),
            ).applied(ts, s0.writes).recorded(s0.begin_ts, ts, s0.reads, s0.writes),
        ),
        to,
        parts,
        |p: NodeId| MsgView::CommitPrepared { txn, commit_ts: ts },
    );
    world::lemma_sent_cluster(
        w.on(
            decided.resolved(txn, Decision::RolledBack, ts).traced(
                "decide ROLLBACK txn="@ + text::dec(txn as nat),
            ).refloored(),
        ),
        to,
        parts,
        |p: NodeId| MsgView::RollbackPrepared { txn },
    );
}

proof fn lemma_delivered_partitions(w: World, to: NodeId, msg: MsgView)
    ensures
        w.delivered(to, msg).cluster.num_partitions == w.cluster.num_partitions,
{
    let c = w.cluster;
    match msg {
        MsgView::Prepare { txn, coordinator, prepare_ts, writes, placement_version } => {
            let ok = c.accepts(to, prepare_ts, placement_version);
            let c1 = if ok {
                c.intent_stored(to, txn, writes)
            } else {
                c
            };
            world::lemma_sent_cluster(
                w.on(c1),
                to,
                seq![coordinator],
                |p: NodeId| MsgView::PrepareReply { txn, participant: to, ok },
            );
        },
        MsgView::PrepareReply { txn, participant, ok } => {
            lemma_replied_partitions(w, to, txn, participant, ok);
        },
        _ => {},
    }
}

proof fn lemma_all_delivered_partitions(w: World, q: Seq<EnvelopeView>)
    ensures
        w.all_delivered(q).cluster.num_partitions == w.cluster.num_partitions,
    decreases q.len(),
{
    if q.len() > 0 {
        lemma_all_delivered_partitions(w, q.drop_last());
        lemma_delivered_partitions(w.all_delivered(q.drop_last()), q.last().to, q.last().msg);
    }
}

proof fn lemma_all_timed_out_partitions(w: World, list: Seq<(NodeId, TxnId)>)
    ensures
        w.all_timed_out(list).cluster.num_partitions == w.cluster.num_partitions,
    decreases list.len(),
{
    if list.len() > 0 {
        lemma_all_timed_out_partitions(w, list.drop_last());
        let p = w.all_timed_out(list.drop_last());
        let (node, txn) = list.last();
        let c = p.cluster;
        let s = c.node(node).coordinating[txn];
        let d = if c.decisions.contains_key(txn) {
            c.decisions[txn]
        } else {
            Decision::RolledBack
        };
        world::lemma_sent_cluster(
            p.on(
                c.with_coord(node, txn, CoordState { decided: true, ..s }).resolved(
                    txn,
                    d,
                    s.prepare_ts,
                ).refloored().traced("watcher ROLLBACK (timeout) txn="@ + text::dec(txn as nat)),
            ),
            node,
            ordered::ascending_u32(s.participants),
            |p: NodeId| MsgView::RollbackPrepared { txn },
        );
    }
}

proof fn lemma_replayed_partitions(c: ClusterState, node: NodeId, from: nat, to: nat)
    ensures
        c.replayed_range(node, from, to).num_partitions == c.num_partitions,
    decreases to,
{
    if to > from {
        lemma_replayed_partitions(c, node, from, (to - 1) as nat);
    }
}

proof fn lemma_replicated_partitions(c: ClusterState, isolated: Set<NodeId>, m: nat)
    ensures
        c.replicated(isolated, m).num_partitions == c.num_partitions,
    decreases m,
{
    if m > 0 {
        lemma_replicated_partitions(c, isolated, (m - 1) as nat);
        let p = c.replicated(isolated, (m - 1) as nat);
        let i = (m - 1) as NodeId;
        lemma_replayed_partitions(p, i, p.node(i).cursor, p.commit_log.len());
    }
}

proof fn lemma_restarted_partitions(c: ClusterState, m: nat)
    ensures
        c.restarted_all(m).num_partitions == c.num_partitions,
    decreases m,
{
    if m > 0 {
        lemma_restarted_partitions(c, (m - 1) as nat);
    }
}

proof fn lemma_drained_partitions(w: World, fuel: nat)
    ensures
        w.drained(fuel).cluster.num_partitions == w.cluster.num_partitions,
    decreases fuel,
{
    if fuel > 0 {
        let now = (w.cluster.now + 1) as u64;
        lemma_ticked_partitions(w, now);
        let w1 = w.ticked(now);
        lemma_all_timed_out_partitions(w1, w1.cluster.expired(w1.cluster.num_partitions as nat));
        let w2 = w1.watched();
        lemma_replicated_partitions(w2.cluster, w2.net.isolated, w2.cluster.num_partitions as nat);
        lemma_drained_partitions(w.drained_once(), (fuel - 1) as nat);
    }
}

proof fn lemma_ticked_partitions(w: World, now: SimTime)
    ensures
        w.ticked(now).cluster.num_partitions == w.cluster.num_partitions,
{
    lemma_all_delivered_partitions(
        World {
            cluster: ClusterState { now, ..w.cluster },
            net: w.net.without_due(now as nat),
            rng: w.rng,
        },
        w.net.due(now as nat),
    );
}

proof fn lemma_done_partitions(w: World, op: Operation)
    ensures
        w.done(op).cluster.num_partitions == w.cluster.num_partitions,
{
    let c = w.cluster;
    match op {
        Operation::Tick(now) => {
            lemma_ticked_partitions(w, now);
        },
        Operation::Deliver(e) => {
            lemma_delivered_partitions(w, e.to, e.msg);
        },
        Operation::Transact(origin) => {
            let (n_reads, r1) = w.rng.int_in(1, 3);
            let (n_writes, r2) = r1.int_in(1, 2);
            let (ok, reads, r3) = state::drawn_reads(c, r2, c.committed_floor, n_reads as nat);
            let (write_keys, r4) = state::drawn_keys(r3, c.key_space(), n_writes as nat);
            let owners = state::owners(c.num_partitions, write_keys);
            let keys = ordered::ascending_u32(write_keys);
            let parts = ordered::ascending_u32(owners);
            let writes = state::numbered(keys, c.next_value);
            let txn = c.next_txn;
            let ts = c.next_ts();
            let c1 = ClusterState {
                next_txn: (c.next_txn + 1) as u64,
                pending_prepares: c.pending_prepares.insert(ts, write_keys),
                next_value: (c.next_value + keys.len()) as u64,
                ..c.allocated()
            }.traced(
                "begin 2PC txn="@ + text::dec(txn as nat) + " coord="@ + text::dec(origin as nat)
                    + " parts="@ + text::list_text("{"@, parts, "}"@) + " prepare_ts="@ + text::dec(
                    ts as nat,
                ),
            ).with_coord(
                origin,
                txn,
                CoordState {
                    begin_ts: c.committed_floor,
                    prepare_ts: ts,
                    started_at: c.now,
                    participants: owners,
                    replies_ok: Set::empty(),
                    replies_bad: Set::empty(),
                    reads,
                    writes,
                    decided: false,
                },
            );
            world::lemma_sent_cluster(
                World { rng: r4, ..w }.on(c1),
                origin,
                parts,
                |p: NodeId|
                    MsgView::Prepare {
                        txn,
                        coordinator: origin,
                        prepare_ts: ts,
                        writes: state::slice(c.num_partitions, writes, p),
                        placement_version: c.placement_version,
                    },
            );
        },
        Operation::Watch => {
            lemma_all_timed_out_partitions(w, c.expired(c.num_partitions as nat));
        },
        Operation::Replicate => {
            lemma_replicated_partitions(c, w.net.isolated, c.num_partitions as nat);
        },
        Operation::Quiesce => {
            lemma_restarted_partitions(c, c.num_partitions as nat);
            lemma_drained_partitions(
                World {
                    cluster: c.restarted_all(c.num_partitions as nat),
                    net: NetState { isolated: Set::empty(), ..w.net },
                    rng: w.rng,
                },
                QUIESCE_TICKS as nat,
            );
        },
        _ => {},
    }
}

/// Whatever is done to a cluster, it keeps its number of partitions.
pub proof fn partitions_stay(w: World, ops: Seq<Operation>)
    ensures
        w.done_all(ops).cluster.num_partitions == w.cluster.num_partitions,
    decreases ops.len(),
{
    if ops.len() > 0 {
        partitions_stay(w, ops.drop_last());
        lemma_done_partitions(w.done_all(ops.drop_last()), ops.last());
    }
}

/// The world comes from one that had done nothing, with at least one partition and
/// keys that can be counted.
pub open spec fn is_reached(w: World) -> bool {
    exists|n: u32, config: NetworkConfig, seed: u64, ops: Seq<Operation>|
        #![trigger World::untouched(n, config, seed).done_all(ops)]
        n > 0 && n * 4 <= u32::MAX && World::untouched(n, config, seed).allows_all(ops) && w
            == World::untouched(n, config, seed).done_all(ops)
}

/// What holds of every world that is reached.
proof fn lemma_reached(w: World)
    requires
        is_reached(w),
    ensures
        w.inv(seq![]),
        w.cluster.on_record(),
{
    let (n, config, seed, ops) = choose|n: u32, config: NetworkConfig, seed: u64, ops: Seq<Operation>|
        #![trigger World::untouched(n, config, seed).done_all(ops)]
        n > 0 && n * 4 <= u32::MAX && World::untouched(n, config, seed).allows_all(ops) && w
            == World::untouched(n, config, seed).done_all(ops);
    let start = World::untouched(n, config, seed);
    world::lemma_fresh(start);
    record::lemma_fresh_record(n);
    lemma_done_all(start, ops);
}

/// The committed floor never moves down.
pub proof fn the_floor_grows(w: World, ops: Seq<Operation>)
    requires
        is_reached(w),
        w.allows_all(ops),
    ensures
        w.done_all(ops).cluster.committed_floor >= w.cluster.committed_floor,
{
    lemma_reached(w);
    lemma_done_all(w, ops);
}

/// The committed floor is no later than the latest commit.
pub proof fn the_floor_is_committed(w: World)
    requires
        is_reached(w),
    ensures
        w.cluster.committed_floor > 0 ==> exists|i: int|
            0 <= i < w.cluster.history.len() && w.cluster.committed_floor <= (
            #[trigger] w.cluster.history[i]).commit_ts,
{
    lemma_reached(w);
    let c = w.cluster;
    if c.committed_floor > 0 {
        let i = choose|i: int|
            0 <= i < c.history.len() && (#[trigger] c.history[i]).commit_ts == c.max_applied;
        assert(c.committed_floor <= c.history[i].commit_ts);
    }
}

/// The committed floor is below the timestamp of every transaction that is
/// prepared and undecided.
pub proof fn the_floor_waits_for_the_undecided(w: World, node: NodeId, txn: TxnId)
    requires
        is_reached(w),
        node < w.cluster.num_partitions,
        w.cluster.node(node).undecided(txn),
    ensures
        w.cluster.committed_floor < w.cluster.node(node).coordinating[txn].prepare_ts,
{
    lemma_reached(w);
    let c = w.cluster;
    assert(c.nodes[node as int].undecided(txn));
    assert(c.pending_prepares.contains_key(c.nodes[node as int].coordinating[txn].prepare_ts));
}

/// A node that did not learn of a new placement version refuses every prepare of
/// that version, whatever has happened since: it stores nothing and says no.
pub proof fn stale_nodes_are_fenced(
    w: World,
    refreshed: Seq<NodeId>,
    ops: Seq<Operation>,
    node: NodeId,
    txn: TxnId,
    coordinator: NodeId,
    prepare_ts: Ts,
    writes: Seq<(Key, Value)>,
)
    requires
        is_reached(w),
        w.allows(Operation::BumpPlacement(refreshed)),
        w.done(Operation::BumpPlacement(refreshed)).allows_all(ops),
        node < w.cluster.num_partitions,
        !refreshed.contains(node),
        w.done(Operation::BumpPlacement(refreshed)).done_all(ops).cluster.node(node).up,
    ensures
        ({
            let version = (w.cluster.placement_version + 1) as u64;
            let bumped = w.done(Operation::BumpPlacement(refreshed));
            let then = bumped.done_all(ops);
            let msg = MsgView::Prepare {
                txn,
                coordinator,
                prepare_ts,
                writes,
                placement_version: version,
            };
            &&& bumped.cluster.placement_version == version
            &&& then.delivered(node, msg).cluster == then.cluster
            &&& then.delivered(node, msg) == then.sent(
                node,
                seq![coordinator],
                |p: NodeId| MsgView::PrepareReply { txn, participant: node, ok: false },
            )
        }),
{
    lemma_reached(w);
    let bump = Operation::BumpPlacement(refreshed);
    let version = (w.cluster.placement_version + 1) as u64;
    let bumped = w.done(bump);
    let then = bumped.done_all(ops);
    lemma_done(w, bump);
    lemma_done_all(bumped, ops);
    assert(w.cluster.nodes[node as int].placement_version <= w.cluster.placement_version);
    assert(bumped.cluster.lacks_placement(node, version));
    assert(then.cluster.lacks_placement(node, version));
    let reply = |p: NodeId| MsgView::PrepareReply { txn, participant: node, ok: false };
    world::lemma_sent_cluster(then, node, seq![coordinator], reply);
    assert(then.on(then.cluster) == then);
    let ok = then.cluster.accepts(node, prepare_ts, version);
    assert((|p: NodeId| MsgView::PrepareReply { txn, participant: node, ok }) =~= reply);
}

/// A decision is final, whatever is done.
pub proof fn decisions_are_final(w: World, ops: Seq<Operation>)
    requires
        is_reached(w),
        w.allows_all(ops),
    ensures
        w.cluster.keeps_decisions(w.done_all(ops).cluster),
{
    lemma_reached(w);
    lemma_done_all(w, ops);
}

/// A transaction that was decided as committed is in the history, exactly once.
pub proof fn committed_decisions_are_recorded_once(w: World, txn: TxnId, ts: Ts)
    requires
        is_reached(w),
        w.cluster.decisions.contains_key(txn),
        w.cluster.decisions[txn] == Decision::Committed(ts),
    ensures
        exists|i: int|
            0 <= i < w.cluster.history.len() && (#[trigger] w.cluster.history[i]).commit_ts == ts,
        forall|i: int, j: int|
            0 <= i < w.cluster.history.len() && 0 <= j < w.cluster.history.len() && (
            #[trigger] w.cluster.history[i]).commit_ts == ts && (
            #[trigger] w.cluster.history[j]).commit_ts == ts ==> i == j,
{
    lemma_reached(w);
    assert(w.cluster.has_committed(txn));
    let c = w.cluster;
    assert forall|i: int, j: int|
        0 <= i < c.history.len() && 0 <= j < c.history.len() && (
        #[trigger] c.history[i]).commit_ts == ts && (
        #[trigger] c.history[j]).commit_ts == ts implies i == j by {
        if i < j {
            assert(c.history[i].commit_ts != c.history[j].commit_ts);
        } else if j < i {
            assert(c.history[j].commit_ts != c.history[i].commit_ts);
        }
    }
}

/// The values of a timeline are those of the history.
proof fn lemma_timeline_values(history: Seq<TxnState>, key: Key, ts: Ts)
    requires
        safety::timeline(history, key).contains_key(ts),
    ensures
        exists|h: int|
            0 <= h < history.len() && (#[trigger] history[h]).writes.contains_key(key)
                && history[h].writes[key] == safety::timeline(history, key)[ts],
    decreases history.len(),
{
    let last = history[history.len() - 1];
    let head = history.drop_last();
    if last.writes.contains_key(key) && last.commit_ts == ts {
        assert(history[history.len() - 1].writes.contains_key(key));
    } else {
        lemma_timeline_values(head, key, ts);
        let h = choose|h: int|
            0 <= h < head.len() && (#[trigger] head[h]).writes.contains_key(key)
                && head[h].writes[key] == safety::timeline(head, key)[ts];
        assert(history[h] == head[h]);
    }
}

/// A transaction that was decided as rolled back leaves no trace: once a node has
/// begun to coordinate it, none of the values it would have written is in the
/// history, and none can be read.
pub proof fn rolled_back_writes_are_never_seen(
    w: World,
    node: NodeId,
    txn: TxnId,
    ops: Seq<Operation>,
    written: Key,
    h: int,
    key: Key,
)
    requires
        is_reached(w),
        node < w.cluster.num_partitions,
        w.cluster.node(node).coordinating.contains_key(txn),
        w.allows_all(ops),
        w.done_all(ops).cluster.decisions.contains_key(txn),
        w.done_all(ops).cluster.decisions[txn] == Decision::RolledBack,
        w.cluster.node(node).coordinating[txn].writes.contains_key(written),
    ensures
        ({
            let value = w.cluster.node(node).coordinating[txn].writes[written];
            let c = w.done_all(ops).cluster;
            &&& 0 <= h < c.history.len() && c.history[h].writes.contains_key(key)
                ==> c.history[h].writes[key] != value
            &&& match c.latest(key) {
                Some((_, v)) => v != value,
                None => true,
            }
        }),
{
    lemma_reached(w);
    lemma_done_all(w, ops);
    let c = w.done_all(ops).cluster;
    let writes = w.cluster.node(node).coordinating[txn].writes;
    assert(w.cluster.nodes[node as int].coordinating.contains_key(txn));
    assert(w.cluster.tied(txn, writes));
    assert(c.tied(txn, writes));
    assert(!c.has_committed(txn));
    assert(0 <= h < c.history.len() ==> apart(c.history[h].writes, writes));
    let m = safety::timeline(c.history, key);
    assert(c.node(c.owner(key)).versions(key) == m);
    preservation::lemma_timeline_finite(c.history, key);
    if !m.dom().is_empty() {
        assert(m.dom().len() > 0) by {
            if m.dom().len() == 0 {
                assert(m.dom() =~= Set::empty());
            }
        }
        let g = ordered::lemma_greatest_u64(m.dom());
        assert(m.contains_key(g));
        lemma_timeline_values(c.history, key, g);
        let x = choose|x: int|
            0 <= x < c.history.len() && (#[trigger] c.history[x]).writes.contains_key(key)
                && c.history[x].writes[key] == m[g];
        assert(apart(c.history[x].writes, writes));
    }
}

/// Replication catches up: a node that is up and connected holds, of every key
/// that another node owns, what its owner has, however long it was down or cut off
/// before. Of its own keys it holds no replica.
pub proof fn replicas_catch_up(w: World, node: NodeId, key: Key)
    requires
        is_reached(w),
        node < w.cluster.num_partitions,
        w.cluster.node(node).up,
        !w.net.isolated.contains(node),
    ensures
        ({
            let c = w.done(Operation::Replicate).cluster;
            c.replica_of(node, key) == if c.owner(key) == node {
                None
            } else {
                c.latest(key)
            }
        }),
{
    lemma_reached(w);
    lemma_done(w, Operation::Replicate);
    let c = w.done(Operation::Replicate).cluster;
    world::lemma_replicated(w, w.cluster.num_partitions as nat);
    assert(w.cluster.nodes[node as int].up);
    assert(c.nodes[node as int].cursor == c.commit_log.len());
    record::lemma_caught_up_replica(c, node, key);
}

/// Once everything has drained, nothing is prepared on any node, whatever crashed,
/// was lost or came twice before.
pub proof fn quiescing_resolves_everything(w: World, node: NodeId, txn: TxnId)
    requires
        is_reached(w),
        w.allows(Operation::Quiesce),
        node < w.cluster.num_partitions,
    ensures
        !w.done(Operation::Quiesce).cluster.node(node).prepared.contains_key(txn),
        w.done(Operation::Quiesce).cluster.prepared_total(w.cluster.num_partitions as nat) == 0,
{
    lemma_reached(w);
    lemma_done(w, Operation::Quiesce);
    world::lemma_quiesced(w);
    let c = w.done(Operation::Quiesce).cluster;
    assert(c.nodes[node as int].prepared.dom().is_empty());
    invariants::lemma_nothing_left(c);
}

} // verus!
