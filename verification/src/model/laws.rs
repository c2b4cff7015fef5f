//! What holds of every simulated run, whatever the seed and the faults.
use crate::model::preservation;
use crate::model::safety;
use crate::model::state;
use crate::model::state::{ClusterState, NodeState, World, QUIESCE_TICKS};
use crate::model::world;
use crate::network::{EnvelopeView, MsgView, NetState};
use crate::ordered;
use crate::sim;
use crate::sim::SimConfig;
use crate::types::{Key, NodeId, SimTime, Ts, TxnId, Value};
use vstd::prelude::*;

verus! {

/// One step keeps the run on course.
proof fn lemma_stepped(w: World, config: SimConfig, step: SimTime, txns: nat)
    requires
        step > 0,
        w.on_course(config, (step - 1) as nat, txns, (step - 1) as nat),
        16 * (1 + txns + config.txns_per_step) <= u64::MAX,
    ensures
        w.stepped(config, step).on_course(
            config,
            step as nat,
            txns + config.txns_per_step as nat,
            step as nat,
        ),
{
    let now = step as nat;
    world::lemma_ticked(w, step);
    let w1 = w.ticked(step);
    sim::lemma_faulted(w1, config, now, txns, (step - 1) as nat);
    let w2 = w1.faulted(config);
    world::lemma_watched(w2);
    let w3 = w2.watched();
    sim::lemma_subscription_tried(w3, config.subscribe_prob, config, now, txns, now);
    let w4 = w3.subscription_tried(config.subscribe_prob);
    sim::lemma_transacted_times(w4, config.txns_per_step as nat, config, now, txns, now);
    let w5 = w4.transacted_times(config.txns_per_step as nat);
    world::lemma_replicated(w5, w5.cluster.num_partitions as nat);
}

/// The first `n` steps of any run keep the invariant.
pub proof fn lemma_run_keeps_invariant(seed: u64, config: SimConfig, n: nat)
    requires
        config.fits(),
        n <= config.steps,
    ensures
        World::fresh(seed, config).after_steps(config, n).inv(seq![]),
        World::fresh(seed, config).after_steps(config, n).on_course(
            config,
            n,
            (n * config.txns_per_step) as nat,
            n,
        ),
    decreases n,
{
    let w = World::fresh(seed, config);
    if n == 0 {
        world::lemma_fresh(w);
    } else {
        let m = (n - 1) as nat;
        lemma_run_keeps_invariant(seed, config, m);
        assert(n * config.txns_per_step <= config.steps * config.txns_per_step)
            by (nonlinear_arith)
            requires
                n <= config.steps,
        ;
        assert(n * config.txns_per_step == m * config.txns_per_step + config.txns_per_step)
            by (nonlinear_arith)
            requires
                n == m + 1,
        ;
        lemma_stepped(
            w.after_steps(config, m),
            config,
            n as SimTime,
            (m * config.txns_per_step) as nat,
        );
    }
}

/// At the end of every run the invariant holds, nothing is left prepared and
/// every replica is current.
pub proof fn every_run_ends_clean(seed: u64, config: SimConfig)
    requires
        config.fits(),
    ensures
        sim::end_of_run(seed, config).cluster.inv(),
        sim::end_of_run(seed, config).cluster.nothing_prepared(),
        sim::end_of_run(seed, config).cluster.caught_up(),
{
    lemma_run_keeps_invariant(seed, config, config.steps as nat);
    world::lemma_quiesced(World::fresh(seed, config).after_steps(config, config.steps as nat));
}

/// Serializability: no committed write to a key lands strictly between the
/// snapshot and the commit of a committed transaction that read the key.
pub proof fn committed_transactions_are_serializable(
    seed: u64,
    config: SimConfig,
    reader: int,
    writer: int,
    key: Key,
)
    requires
        config.fits(),
        0 <= reader < sim::end_of_run(seed, config).cluster.history.len(),
        0 <= writer < sim::end_of_run(seed, config).cluster.history.len(),
        sim::end_of_run(seed, config).cluster.history[reader].reads.contains_key(key),
        sim::end_of_run(seed, config).cluster.history[writer].writes.contains_key(key),
    ensures
        ({
            let h = sim::end_of_run(seed, config).cluster.history;
            h[writer].commit_ts <= h[reader].begin_ts || h[writer].commit_ts >= h[reader].commit_ts
        }),
{
    every_run_ends_clean(seed, config);
    let c = sim::end_of_run(seed, config).cluster;
    preservation::lemma_timeline_points(c.history, key);
    assert(safety::timeline(c.history, key).contains_key(c.history[writer].commit_ts));
}

/// Snapshot consistency: a committed transaction read, of every key, the value
/// of the newest commit no later than its snapshot.
pub proof fn reads_see_their_snapshot(seed: u64, config: SimConfig, reader: int, key: Key)
    requires
        config.fits(),
        0 <= reader < sim::end_of_run(seed, config).cluster.history.len(),
        sim::end_of_run(seed, config).cluster.history[reader].reads.contains_key(key),
    ensures
        ({
            let h = sim::end_of_run(seed, config).cluster.history;
            h[reader].reads[key] == safety::seen_at(h, key, h[reader].begin_ts)
        }),
{
    every_run_ends_clean(seed, config);
}

/// No lost writes: the owner of a key holds exactly the versions that the
/// committed transactions wrote.
pub proof fn owners_hold_every_committed_write(seed: u64, config: SimConfig, key: Key)
    requires
        config.fits(),
    ensures
        ({
            let c = sim::end_of_run(seed, config).cluster;
            c.node(c.owner(key)).versions(key) == safety::timeline(c.history, key)
        }),
{
    every_run_ends_clean(seed, config);
}

/// Commit timestamps are unique.
pub proof fn commit_timestamps_are_unique(seed: u64, config: SimConfig, i: int, j: int)
    requires
        config.fits(),
        0 <= i < j < sim::end_of_run(seed, config).cluster.history.len(),
    ensures
        sim::end_of_run(seed, config).cluster.history[i].commit_ts != sim::end_of_run(
            seed,
            config,
        ).cluster.history[j].commit_ts,
{
    every_run_ends_clean(seed, config);
}

/// The committed floor never moved down during a run.
pub proof fn committed_floor_is_monotonic(seed: u64, config: SimConfig, i: int, j: int)
    requires
        config.fits(),
        0 <= i <= j < sim::end_of_run(seed, config).cluster.floor_samples.len(),
    ensures
        sim::end_of_run(seed, config).cluster.floor_samples[i] <= sim::end_of_run(
            seed,
            config,
        ).cluster.floor_samples[j],
{
    every_run_ends_clean(seed, config);
}

/// No replication frontier moved down during a run.
pub proof fn frontiers_are_monotonic(seed: u64, config: SimConfig, i: int, j: int)
    requires
        config.fits(),
        0 <= i <= j < sim::end_of_run(seed, config).cluster.frontier_samples.len(),
        sim::end_of_run(seed, config).cluster.frontier_samples[i].0 == sim::end_of_run(
            seed,
            config,
        ).cluster.frontier_samples[j].0,
        sim::end_of_run(seed, config).cluster.frontier_samples[i].1 == sim::end_of_run(
            seed,
            config,
        ).cluster.frontier_samples[j].1,
    ensures
        sim::end_of_run(seed, config).cluster.frontier_samples[i].2 <= sim::end_of_run(
            seed,
            config,
        ).cluster.frontier_samples[j].2,
{
    every_run_ends_clean(seed, config);
}

/// No phantom prepared transactions: at the end of a run no node holds a
/// prepared slice of any transaction.
pub proof fn nothing_stays_prepared(seed: u64, config: SimConfig, node: NodeId, txn: TxnId)
    requires
        config.fits(),
        node < config.num_partitions,
    ensures
        !sim::end_of_run(seed, config).cluster.node(node).prepared.contains_key(txn),
{
    every_run_ends_clean(seed, config);
    let c = sim::end_of_run(seed, config).cluster;
    lemma_run_keeps_invariant(seed, config, config.steps as nat);
    let w = World::fresh(seed, config).after_steps(config, config.steps as nat);
    let w1 = World {
        cluster: w.cluster.restarted_all(w.cluster.num_partitions as nat),
        net: NetState { isolated: Set::empty(), ..w.net },
        rng: w.rng,
    };
    world::lemma_quiesce_begun(w, w1);
    world::lemma_drained(w1, w.cluster.now, QUIESCE_TICKS as nat);
    assert(c.num_partitions == config.num_partitions);
    assert(c.nodes[node as int].prepared.dom().is_empty());
}

/// No missed invalidations: a subscription is invalidated once a transaction
/// that wrote one of its keys has committed after it was registered.
pub proof fn invalidations_are_not_missed(seed: u64, config: SimConfig, sub: int, txn: int, key: Key)
    requires
        config.fits(),
        0 <= sub < sim::end_of_run(seed, config).cluster.subs.len(),
        0 <= txn < sim::end_of_run(seed, config).cluster.history.len(),
        sim::end_of_run(seed, config).cluster.history[txn].commit_ts > sim::end_of_run(
            seed,
            config,
        ).cluster.subs[sub].registered_ts,
        sim::end_of_run(seed, config).cluster.history[txn].writes.contains_key(key),
        sim::end_of_run(seed, config).cluster.subs[sub].read_keys.contains(key),
    ensures
        sim::end_of_run(seed, config).cluster.subs[sub].invalidated,
{
    every_run_ends_clean(seed, config);
    let c = sim::end_of_run(seed, config).cluster;
    assert(crate::model::invariants::concerns(c.history[txn], c.subs[sub]));
    crate::model::invariants::lemma_invalidated(c, sub, txn);
}

/// A decision is final: no delivered message changes one.
pub proof fn delivery_keeps_decisions(w: World, q: Seq<EnvelopeView>)
    requires
        w.inv(q),
        q.len() > 0,
    ensures
        w.cluster.keeps_decisions(w.delivered(q[0].to, q[0].msg).cluster),
{
    let c = w.cluster;
    let to = q[0].to;
    assert(c.expects(q[0]));
    if c.node(to).up {
        match q[0].msg {
            MsgView::Prepare { txn, coordinator, prepare_ts, writes, placement_version } => {
                let ok = c.accepts(to, prepare_ts, placement_version);
                let c1 = if ok {
                    c.intent_stored(to, txn, writes)
                } else {
                    c
                };
                world::lemma_sent_cluster(
                    w.on(c1),
                    to,
                    seq![coordinator],
                    |p: NodeId| MsgView::PrepareReply { txn, participant: to, ok },
                );
            },
            MsgView::PrepareReply { txn, participant, ok } => {
                let known = c.node(to).coordinating;
                let s0 = known[txn];
                if known.contains_key(txn) {
                    assert(c.nodes[to as int].coordinating.contains_key(txn));
                    let parts = ordered::ascending_u32(s0.participants);
                    let r = w.replied(to, txn, participant, ok);
                    assert(r.cluster.decisions == c.decisions || (!s0.decided
                        && r.cluster.decisions.remove(txn) =~= c.decisions.remove(txn)));
                    assert(s0.decided == c.decisions.contains_key(txn));
                }
            },
            MsgView::CommitPrepared { txn, commit_ts } => {},
            MsgView::RollbackPrepared { txn } => {},
        }
    }
}

/// A decision is final: a crash does not change one.
pub proof fn crash_keeps_decisions(c: ClusterState, node: NodeId)
    requires
        c.shaped(),
        node < c.num_partitions,
    ensures
        c.keeps_decisions(c.crashed(node)),
{
}

/// A decision is final: giving up on late transactions changes none.
pub proof fn timeout_keeps_decisions(w: World, node: NodeId, txn: TxnId)
    requires
        w.cluster.shaped(),
        node < w.cluster.num_partitions,
    ensures
        w.cluster.keeps_decisions(w.timed_out(node, txn).cluster),
{
}

/// A crash loses nothing durable: committed store, prepared slices, replicated
/// values, frontiers and log cursor stay, on every node.
pub proof fn crash_keeps_durable_state(c: ClusterState, node: NodeId, i: int)
    requires
        c.shaped(),
        node < c.num_partitions,
        0 <= i < c.nodes.len(),
    ensures
        ({
            let n = c.nodes[i];
            let r = c.crashed(node).nodes[i];
            &&& r.store == n.store
            &&& r.prepared == n.prepared
            &&& r.replica == n.replica
            &&& r.frontier == n.frontier
            &&& r.cursor == n.cursor
            &&& r.commit_frontier == n.commit_frontier
        }),
        c.crashed(node).commit_log == c.commit_log,
        c.crashed(node).history == c.history,
{
}

/// A node that crashes and restarts is up again, with its durable state.
pub proof fn restart_undoes_crash(c: ClusterState, node: NodeId)
    requires
        c.shaped(),
        node < c.num_partitions,
        c.node(node).up,
    ensures
        c.crashed(node).restarted(node).node(node) == (NodeState {
            coordinating: Map::empty(),
            ..c.node(node)
        }),
{
}

/// The newest version is one of the versions, and no other is later; what a reader
/// sees at a timestamp is the newest version that is not later than it, and nothing
/// where there is none.
pub proof fn readers_see_the_newest_version(c: ClusterState, key: Key, ts: Ts, t: Ts)
    requires
        c.node(c.owner(key)).versions(key).dom().finite(),
    ensures
        ({
            let versions = c.node(c.owner(key)).versions(key);
            &&& c.latest(key) is None <==> forall|x: Ts| !#[trigger] versions.contains_key(x)
            &&& c.latest(key) matches Some((at, v)) ==> versions.contains_key(at) && versions[at]
                == v && (versions.contains_key(t) ==> t <= at)
            &&& versions.contains_key(t) && t <= ts && (forall|x: Ts|
                #[trigger] versions.contains_key(x) && x <= ts ==> x <= t) ==> c.value_as_of(
                key,
                ts,
            ) == versions[t]
            &&& (forall|x: Ts| #[trigger] versions.contains_key(x) ==> x > ts) ==> c.value_as_of(
                key,
                ts,
            ) == 0
        }),
{
    let versions = c.node(c.owner(key)).versions(key);
    let seen = state::up_to(versions, ts);
    assert(seen.dom() =~= versions.dom().filter(|x: Ts| x <= ts));
    if versions.dom().is_empty() {
        assert forall|x: Ts| !#[trigger] versions.contains_key(x) by {
            assert(!versions.dom().contains(x));
        }
    } else {
        assert(versions.dom().len() > 0) by {
            let x = choose|x: Ts| versions.dom().contains(x);
            if versions.dom().len() == 0 {
                assert(versions.dom() =~= Set::<Ts>::empty());
            }
        }
        let at = ordered::lemma_greatest_u64(versions.dom());
        assert(versions.contains_key(at));
    }
    if versions.contains_key(t) && t <= ts {
        assert(seen.dom().contains(t));
        assert(seen.dom().finite());
        assert(seen.dom().len() > 0) by {
            if seen.dom().len() == 0 {
                assert(seen.dom() =~= Set::<Ts>::empty());
            }
        }
        let at = ordered::lemma_greatest_u64(seen.dom());
        assert(versions.contains_key(at));
    }
    if forall|x: Ts| #[trigger] versions.contains_key(x) ==> x > ts {
        assert forall|x: Ts| !seen.dom().contains(x) by {
            if seen.dom().contains(x) {
                assert(versions.contains_key(x));
            }
        }
        assert(seen.dom() =~= Set::<Ts>::empty());
    }
}

/// A read conflicts exactly where the key was written after the snapshot or somebody
/// is about to write it.
pub proof fn conflicts_are_later_or_pending_writes(c: ClusterState, key: Key, begin_ts: Ts, reads: Map<Key, Value>)
    requires
        c.node(c.owner(key)).versions(key).dom().finite(),
    ensures
        c.key_conflicts(key, begin_ts) <==> (exists|t: Ts|
            #[trigger] c.node(c.owner(key)).versions(key).contains_key(t) && t > begin_ts) || exists|
            txn: TxnId,
            i: int,
        |
            #![trigger c.node(c.owner(key)).prepared[txn][i]]
            c.node(c.owner(key)).prepared.contains_key(txn) && 0 <= i < c.node(
                c.owner(key),
            ).prepared[txn].len() && c.node(c.owner(key)).prepared[txn][i].0 == key,
        reads.contains_key(key) && c.key_conflicts(key, begin_ts) ==> c.has_conflict(
            reads,
            begin_ts,
        ),
        (forall|k: Key| reads.contains_key(k) ==> !#[trigger] c.key_conflicts(k, begin_ts))
            ==> !c.has_conflict(reads, begin_ts),
{
    let n = c.node(c.owner(key));
    let versions = n.versions(key);
    readers_see_the_newest_version(c, key, begin_ts, begin_ts);
    if let Some((at, _)) = c.latest(key) {
        assert forall|t: Ts| #[trigger] versions.contains_key(t) implies t <= at by {
            readers_see_the_newest_version(c, key, begin_ts, t);
        }
        assert(versions.contains_key(at));
    }
    if n.intent_on(key) {
        let txn = choose|txn: TxnId| #[trigger]
            n.prepared.contains_key(txn) && state::writes_key(n.prepared[txn], key);
        let i = choose|i: int|
            0 <= i < n.prepared[txn].len() && #[trigger] n.prepared[txn][i].0 == key;
        assert(n.prepared[txn][i].0 == key);
    }
    if exists|txn: TxnId, i: int|
        #![trigger n.prepared[txn][i]]
        n.prepared.contains_key(txn) && 0 <= i < n.prepared[txn].len() && n.prepared[txn][i].0
            == key {
        let (txn, i) = choose|txn: TxnId, i: int|
            #![trigger n.prepared[txn][i]]
            n.prepared.contains_key(txn) && 0 <= i < n.prepared[txn].len() && n.prepared[txn][i].0
                == key;
        assert(n.prepared[txn][i].0 == key);
        assert(state::writes_key(n.prepared[txn], key));
        assert(n.prepared.contains_key(txn) && state::writes_key(n.prepared[txn], key));
    }
}

/// A pending write blocks a commit exactly where it may come before it and writes
/// what was read.
pub proof fn pending_writes_block_later_commits(
    c: ClusterState,
    reads: Map<Key, Value>,
    commit_ts: Ts,
    p: Ts,
    key: Key,
)
    ensures
        p < commit_ts && c.pending_prepares.contains_key(p) && reads.contains_key(key)
            && c.pending_prepares[p].contains(key) ==> c.pending_blocks(reads, commit_ts),
        (forall|p: Ts| #[trigger] c.pending_prepares.contains_key(p) ==> p >= commit_ts)
            ==> !c.pending_blocks(reads, commit_ts),
{
}

/// Timestamps are drawn once each, and after everything that is committed.
pub proof fn drawn_timestamps_are_new(c: ClusterState)
    requires
        c.tso_next < u64::MAX,
        c.committed_floor < u64::MAX - 1,
    ensures
        c.next_ts() > c.committed_floor,
        c.next_ts() >= c.tso_next,
        c.next_ts() == c.tso_next || c.next_ts() == c.committed_floor + 1,
        c.allocated().tso_next == c.next_ts() + 1,
        c.allocated() == (ClusterState { tso_next: c.allocated().tso_next, ..c }),
{
}

proof fn lemma_numbered_keys(keys: Seq<Key>, first: Value)
    ensures
        state::numbered(keys, first).dom() == keys.to_set(),
    decreases keys.len(),
{
    if keys.len() > 0 {
        let front = keys.drop_last();
        lemma_numbered_keys(front, first);
        assert(keys.to_set() =~= front.to_set().insert(keys.last())) by {
            assert(front.push(keys.last()) =~= keys);
            assert forall|k: Key| keys.to_set().contains(k) <==> front.to_set().insert(
                keys.last(),
            ).contains(k) by {
                if front.contains(k) {
                    let i = choose|i: int| 0 <= i < front.len() && front[i] == k;
                    assert(keys[i] == k);
                }
                if keys.contains(k) {
                    let i = choose|i: int| 0 <= i < keys.len() && keys[i] == k;
                    if i < front.len() {
                        assert(front[i] == k);
                    }
                }
                assert(keys[keys.len() - 1] == keys.last());
            }
        }
        assert(state::numbered(keys, first).dom() =~= keys.to_set());
    } else {
        assert(state::numbered(keys, first).dom() =~= keys.to_set());
    }
}

/// Each write of a transaction gets a value of its own, that none had before.
pub proof fn written_values_are_new(keys: Seq<Key>, first: Value, i: int)
    requires
        keys.no_duplicates(),
        0 <= i < keys.len(),
        first + keys.len() <= u64::MAX,
    ensures
        state::numbered(keys, first).contains_key(keys[i]),
        state::numbered(keys, first)[keys[i]] == first + i,
    decreases keys.len(),
{
    if i < keys.len() - 1 {
        let front = keys.drop_last();
        assert(front[i] == keys[i]);
        assert(front.no_duplicates());
        written_values_are_new(front, first, i);
        assert(keys[keys.len() - 1] != keys[i]);
    }
}

/// A transaction on one partition commits where its owner is up and nothing
/// conflicts with it: it is recorded as it ran, at a new timestamp, and its owner
/// holds what it wrote.
pub proof fn unhindered_transactions_commit(
    c: ClusterState,
    begin_ts: Ts,
    reads: Map<Key, Value>,
    write_keys: Set<Key>,
    key: Key,
)
    requires
        c.shaped(),
        write_keys.finite(),
        write_keys.contains(key),
        c.node(c.owner(ordered::least_u32(write_keys))).up,
        !c.has_conflict(reads, begin_ts),
        !c.allocated().pending_blocks(reads, c.next_ts()),
    ensures
        ({
            let r = c.single_committed(begin_ts, reads, write_keys);
            let t = r.history.last();
            &&& r.history.len() == c.history.len() + 1
            &&& r.history.drop_last() == c.history
            &&& t.id == c.next_txn_record
            &&& t.begin_ts == begin_ts
            &&& t.commit_ts == c.next_ts()
            &&& t.reads == reads
            &&& t.writes.dom() == write_keys
            &&& r.node(r.owner(key)).versions(key).contains_key(t.commit_ts)
            &&& r.node(r.owner(key)).versions(key)[t.commit_ts] == t.writes[key]
            &&& r.max_applied >= t.commit_ts
            &&& r.trace.len() == c.trace.len() + 1
        }),
{
    let keys = ordered::ascending_u32(write_keys);
    ordered::lemma_ascending_u32(write_keys);
    lemma_numbered_keys(keys, c.next_value);
    assert(!write_keys.is_empty());
    let r = c.single_committed(begin_ts, reads, write_keys);
    assert(r.history.drop_last() =~= c.history);
    assert(c.owner(key) < c.num_partitions) by {
        assert(key % c.num_partitions < c.num_partitions);
    }
}

/// A transaction on one partition that is hindered is not recorded and changes no
/// data.
pub proof fn hindered_transactions_do_not_commit(
    c: ClusterState,
    begin_ts: Ts,
    reads: Map<Key, Value>,
    write_keys: Set<Key>,
)
    ensures
        ({
            let r = c.single_committed(begin_ts, reads, write_keys);
            let down = !c.node(c.owner(ordered::least_u32(write_keys))).up;
            &&& down || c.has_conflict(reads, begin_ts) ==> r == c
            &&& c.allocated().pending_blocks(reads, c.next_ts()) ==> r.history == c.history
                && r.nodes == c.nodes && r.commit_log == c.commit_log
        }),
{
}

/// A transaction across partitions that conflicts is not begun; any other is given a
/// timestamp that is pending from then on, and its coordinator keeps what it read and
/// will write and asks each participant.
pub proof fn distributed_transactions_begin_pending(
    w: World,
    coordinator: NodeId,
    begin_ts: Ts,
    reads: Map<Key, Value>,
    write_keys: Set<Key>,
    participants: Set<NodeId>,
)
    requires
        w.cluster.shaped(),
        coordinator < w.cluster.num_partitions,
        write_keys.finite(),
    ensures
        ({
            let c = w.cluster;
            let r = w.two_phase_begun(coordinator, begin_ts, reads, write_keys, participants);
            let s = r.cluster.node(coordinator).coordinating[c.next_txn];
            &&& c.has_conflict(reads, begin_ts) ==> r == w
            &&& !c.has_conflict(reads, begin_ts) ==> {
                &&& r.cluster.pending_prepares == c.pending_prepares.insert(c.next_ts(), write_keys)
                &&& r.cluster.node(coordinator).coordinating.contains_key(c.next_txn)
                &&& s.begin_ts == begin_ts
                &&& s.prepare_ts == c.next_ts()
                &&& s.participants == participants
                &&& s.reads == reads
                &&& s.writes.dom() == write_keys
                &&& !s.decided
                &&& s.replies_ok.is_empty() && s.replies_bad.is_empty()
                &&& r.cluster.history == c.history
                &&& r.cluster.decisions == c.decisions
                &&& r.cluster.next_txn == (c.next_txn + 1) as u64
            }
        }),
{
    let c = w.cluster;
    let keys = ordered::ascending_u32(write_keys);
    ordered::lemma_ascending_u32(write_keys);
    lemma_numbered_keys(keys, c.next_value);
    let writes = state::numbered(keys, c.next_value);
    let ts = c.next_ts();
    let txn = c.next_txn;
    let f = |p: NodeId|
        MsgView::Prepare {
            txn,
            coordinator,
            prepare_ts: ts,
            writes: state::slice(c.num_partitions, writes, p),
            placement_version: c.placement_version,
        };
    assert forall|v: World| #[trigger]
        v.sent(coordinator, ordered::ascending_u32(participants), f).cluster == v.cluster by {
        lemma_sending_changes_no_node(v, coordinator, ordered::ascending_u32(participants), f);
    }
}

proof fn lemma_sending_changes_no_node(
    w: World,
    from: NodeId,
    tos: Seq<NodeId>,
    msg: spec_fn(NodeId) -> MsgView,
)
    ensures
        w.sent(from, tos, msg).cluster == w.cluster,
{
}

/// Messages are sent one after the other, to each receiver its own, and sending
/// changes no node.
pub proof fn messages_are_sent_in_turn(
    w: World,
    from: NodeId,
    tos: Seq<NodeId>,
    to: NodeId,
    msg: spec_fn(NodeId) -> MsgView,
)
    ensures
        w.sent(from, Seq::empty(), msg) == w,
        w.sent(from, tos.push(to), msg).cluster == w.cluster,
        ({
            let before = w.sent(from, tos, msg);
            let after = w.sent(from, tos.push(to), msg);
            let (net, rng, _) = before.net.send(
                before.rng,
                w.cluster.now as nat,
                from,
                to,
                msg(to),
            );
            after.net == net && after.rng == rng
        }),
{
    assert(tos.push(to).drop_last() == tos);
}

/// A participant that is up prepares exactly where it shares the placement and has
/// not committed past the timestamp, keeps the writes then, and answers either way.
pub proof fn participants_prepare_what_they_can(
    w: World,
    to: NodeId,
    txn: TxnId,
    coordinator: NodeId,
    prepare_ts: Ts,
    writes: Seq<(Key, Value)>,
    placement_version: u64,
)
    requires
        w.cluster.shaped(),
        to < w.cluster.num_partitions,
    ensures
        ({
            let c = w.cluster;
            let msg = MsgView::Prepare { txn, coordinator, prepare_ts, writes, placement_version };
            let r = w.delivered(to, msg);
            let ok = c.node(to).placement_version == placement_version && prepare_ts > c.node(
                to,
            ).commit_frontier;
            &&& !c.node(to).up ==> r == w
            &&& c.node(to).up && ok ==> r.cluster.node(to).prepared == c.node(to).prepared.insert(
                txn,
                writes,
            )
            &&& c.node(to).up && !ok ==> r.cluster == c
            &&& c.node(to).up ==> r.net == w.net.send(
                w.rng,
                c.now as nat,
                to,
                coordinator,
                MsgView::PrepareReply { txn, participant: to, ok },
            ).0
            &&& r.cluster.history == c.history
            &&& r.cluster.decisions == c.decisions
        }),
{
    let c = w.cluster;
    let ok = c.accepts(to, prepare_ts, placement_version);
    let f = |p: NodeId| MsgView::PrepareReply { txn, participant: to, ok };
    let base = w.on(
        if ok {
            c.intent_stored(to, txn, writes)
        } else {
            c
        },
    );
    messages_are_sent_in_turn(base, to, Seq::empty(), coordinator, f);
    assert(Seq::<NodeId>::empty().push(coordinator) =~= seq![coordinator]);
}

/// A participant that hears of a decision lets go of what it had prepared for it, and
/// of nothing else.
pub proof fn decided_participants_let_go(w: World, to: NodeId, txn: TxnId, other: TxnId, commit_ts: Ts)
    requires
        w.cluster.shaped(),
        to < w.cluster.num_partitions,
        w.cluster.node(to).up,
    ensures
        ({
            let committed = w.delivered(to, MsgView::CommitPrepared { txn, commit_ts }).cluster;
            let rolled_back = w.delivered(to, MsgView::RollbackPrepared { txn }).cluster;
            let before = w.cluster.node(to).prepared;
            &&& !committed.node(to).prepared.contains_key(txn)
            &&& !rolled_back.node(to).prepared.contains_key(txn)
            &&& other != txn && before.contains_key(other) ==> committed.node(
                to,
            ).prepared.contains_key(other) && rolled_back.node(to).prepared.contains_key(other)
            &&& committed.history == w.cluster.history && rolled_back.history == w.cluster.history
        }),
{
}

/// Once every participant agreed the coordinator commits, unless what was read has
/// changed: then, and where one refused, it rolls back; either way the decision is
/// recorded and the timestamp is no longer pending.
pub proof fn coordinators_decide_by_the_replies(
    w: World,
    coordinator: NodeId,
    txn: TxnId,
    participant: NodeId,
    ok: bool,
)
    requires
        w.cluster.shaped(),
        coordinator < w.cluster.num_partitions,
        w.cluster.node(coordinator).undecided(txn),
    ensures
        ({
            let c = w.cluster;
            let s = c.node(coordinator).coordinating[txn];
            let r = w.replied(coordinator, txn, participant, ok).cluster;
            let all = if ok {
                s.replies_ok.insert(participant)
            } else {
                s.replies_ok
            } == s.participants;
            let changed = c.has_conflict(s.reads, s.begin_ts) || c.pending_blocks(
                s.reads,
                s.prepare_ts,
            );
            &&& all && !changed ==> {
                &&& r.decisions == c.decisions.insert(
                    txn,
                    state::Decision::Committed(s.prepare_ts),
                )
                &&& r.history.len() == c.history.len() + 1
                &&& r.history.last().writes == s.writes
                &&& r.history.last().reads == s.reads
                &&& r.history.last().begin_ts == s.begin_ts
                &&& r.history.last().commit_ts == s.prepare_ts
                &&& r.pending_prepares == c.pending_prepares.remove(s.prepare_ts)
            }
            &&& all && changed ==> r.decisions == c.decisions.insert(
                txn,
                state::Decision::RolledBack,
            ) && r.history == c.history && r.pending_prepares == c.pending_prepares.remove(
                s.prepare_ts,
            )
            &&& !all && !ok ==> r.decisions == c.decisions.insert(txn, state::Decision::RolledBack)
                && r.history == c.history && r.pending_prepares == c.pending_prepares.remove(
                s.prepare_ts,
            )
            &&& !all && ok && s.replies_bad.is_empty() ==> r.decisions == c.decisions && r.history
                == c.history && r.pending_prepares == c.pending_prepares && r.node(
                coordinator,
            ).coordinating[txn].replies_ok.contains(participant) && !r.node(
                coordinator,
            ).coordinating[txn].decided
        }),
{
    let c = w.cluster;
    let s = c.node(coordinator).coordinating[txn];
    let s1 = state::CoordState {
        replies_ok: if ok {
            s.replies_ok.insert(participant)
        } else {
            s.replies_ok
        },
        replies_bad: if ok {
            s.replies_bad
        } else {
            s.replies_bad.insert(participant)
        },
        ..s
    };
    let decided = c.with_coord(coordinator, txn, state::CoordState { decided: true, ..s1 });
    lemma_coordinators_share_data(c, coordinator, txn, state::CoordState { decided: true, ..s1 });
    assert(decided.has_conflict(s.reads, s.begin_ts) == c.has_conflict(s.reads, s.begin_ts)) by {
        assert forall|k: Key| #[trigger] decided.key_conflicts(k, s.begin_ts) == c.key_conflicts(
            k,
            s.begin_ts,
        ) by {
            lemma_coordinators_share_key(
                c,
                coordinator,
                txn,
                state::CoordState { decided: true, ..s1 },
                k,
                s.begin_ts,
            );
        }
        if c.has_conflict(s.reads, s.begin_ts) {
            let k = choose|k: Key|
                s.reads.contains_key(k) && #[trigger] c.key_conflicts(k, s.begin_ts);
            assert(decided.key_conflicts(k, s.begin_ts));
        }
        if decided.has_conflict(s.reads, s.begin_ts) {
            let k = choose|k: Key|
                s.reads.contains_key(k) && #[trigger] decided.key_conflicts(k, s.begin_ts);
            assert(c.key_conflicts(k, s.begin_ts));
        }
    }
    if !ok {
        assert(s.replies_bad.insert(participant).contains(participant));
        assert(!s1.replies_bad.is_empty());
    }
}

proof fn lemma_coordinators_share_data(
    c: ClusterState,
    node: NodeId,
    txn: TxnId,
    s: state::CoordState,
)
    ensures
        c.with_coord(node, txn, s).pending_prepares == c.pending_prepares,
{
}

proof fn lemma_coordinators_share_key(
    c: ClusterState,
    node: NodeId,
    txn: TxnId,
    s: state::CoordState,
    key: Key,
    begin_ts: Ts,
)
    requires
        c.shaped(),
        node < c.num_partitions,
    ensures
        c.with_coord(node, txn, s).key_conflicts(key, begin_ts) == c.key_conflicts(key, begin_ts),
{
    let r = c.with_coord(node, txn, s);
    let o = c.owner(key);
    assert(o < c.num_partitions) by {
        assert(key % c.num_partitions < c.num_partitions);
    }
    assert(r.node(o).store == c.node(o).store);
    assert(r.node(o).prepared == c.node(o).prepared);
    assert(r.node(o).intent_on(key) == c.node(o).intent_on(key)) by {
        if c.node(o).intent_on(key) {
            let t = choose|t: TxnId| #[trigger]
                c.node(o).prepared.contains_key(t) && state::writes_key(
                    c.node(o).prepared[t],
                    key,
                );
            assert(r.node(o).prepared.contains_key(t));
        }
        if r.node(o).intent_on(key) {
            let t = choose|t: TxnId| #[trigger]
                r.node(o).prepared.contains_key(t) && state::writes_key(
                    r.node(o).prepared[t],
                    key,
                );
            assert(c.node(o).prepared.contains_key(t));
        }
    }
}

/// A transaction is given up exactly where it is undecided longer than it may be, and
/// one that is given up is rolled back unless it was decided before.
pub proof fn late_transactions_are_given_up(w: World, node: NodeId, txn: TxnId)
    requires
        w.cluster.shaped(),
        node < w.cluster.num_partitions,
    ensures
        w.cluster.expired_on(node).contains(txn) <==> w.cluster.node(
            node,
        ).coordinating.contains_key(txn) && !w.cluster.node(node).coordinating[txn].decided
            && w.cluster.now - w.cluster.node(node).coordinating[txn].started_at > 25,
        ({
            let r = w.timed_out(node, txn).cluster;
            let s = w.cluster.node(node).coordinating[txn];
            &&& r.decisions.contains_key(txn)
            &&& w.cluster.decisions.contains_key(txn) ==> r.decisions[txn]
                == w.cluster.decisions[txn]
            &&& !w.cluster.decisions.contains_key(txn) ==> r.decisions[txn]
                == state::Decision::RolledBack
            &&& r.node(node).coordinating[txn].decided
            &&& r.pending_prepares == w.cluster.pending_prepares.remove(s.prepare_ts)
            &&& r.history == w.cluster.history
        }),
{
}

/// Recovery lets go of what was prepared for decided transactions, on nodes that are
/// up, and of nothing else.
pub proof fn recovery_lets_go_of_the_decided(c: ClusterState, i: int, txn: TxnId)
    requires
        0 <= i < c.nodes.len(),
    ensures
        c.nodes[i].up ==> (c.recovered().nodes[i].prepared.contains_key(txn)
            <==> c.nodes[i].prepared.contains_key(txn) && !c.decisions.contains_key(txn)),
        !c.nodes[i].up ==> c.recovered().nodes[i] == c.nodes[i],
        c.recovered().history == c.history,
        c.recovered().decisions == c.decisions,
{
}

/// A node that crashes is down, coordinates nothing any more, and what it had not
/// decided is rolled back; one that restarts is up.
pub proof fn crashes_roll_back_the_undecided(c: ClusterState, node: NodeId, txn: TxnId)
    requires
        c.shaped(),
        node < c.num_partitions,
        c.node(node).up,
    ensures
        !c.crashed(node).node(node).up,
        !c.crashed(node).node(node).coordinating.contains_key(txn),
        c.node(node).undecided(txn) && !c.decisions.contains_key(txn) ==> c.crashed(
            node,
        ).decisions.contains_key(txn) && c.crashed(node).decisions[txn]
            == state::Decision::RolledBack,
        c.decisions.contains_key(txn) ==> c.crashed(node).decisions.contains_key(txn) && c.crashed(
            node,
        ).decisions[txn] == c.decisions[txn],
        c.node(node).undecided(txn) ==> !c.crashed(node).pending_prepares.contains_key(
            c.node(node).coordinating[txn].prepare_ts,
        ),
        c.crashed(node).restarted(node).node(node).up,
{
    if c.node(node).undecided(txn) {
        let s = c.node(node).coordinating.dom().filter(|t: TxnId| c.node(node).undecided(t));
        assert(s.contains(txn));
        assert(s.map(|t: TxnId| c.node(node).coordinating[t].prepare_ts).contains(
            c.node(node).coordinating[txn].prepare_ts,
        ));
        assert(c.abandoned_prepares(node).contains(c.node(node).coordinating[txn].prepare_ts));
    }
}

/// A new placement has the next version, reaches the nodes that are refreshed and no
/// other, and changes nothing else.
pub proof fn placements_reach_refreshed_nodes(c: ClusterState, refreshed: Seq<NodeId>, i: int)
    requires
        c.staffed(),
        0 <= i < c.nodes.len(),
        c.placement_version < u64::MAX,
    ensures
        ({
            let r = c.placement_bumped(refreshed);
            &&& r.placement_version == c.placement_version + 1
            &&& refreshed.contains(i as NodeId) ==> r.nodes[i].placement_version
                == c.placement_version + 1
            &&& !refreshed.contains(i as NodeId) ==> r.nodes[i] == c.nodes[i]
            &&& r.nodes[i].store == c.nodes[i].store
            &&& r.nodes[i].up == c.nodes[i].up
            &&& r.history == c.history
        }),
{
}

/// A subscription counts from the committed floor, and is invalid from the start
/// exactly where what it watches has been written since.
pub proof fn subscriptions_count_from_the_floor(c: ClusterState, node: NodeId, keys: Set<Key>)
    ensures
        ({
            let r = c.subscribed(node, keys);
            let s = r.subs.last();
            &&& r.subs.len() == c.subs.len() + 1
            &&& r.subs.drop_last() == c.subs
            &&& s.node == node
            &&& s.read_keys == keys
            &&& s.registered_ts == c.committed_floor
            &&& s.invalidated <==> exists|i: int, j: int|
                #![trigger c.commit_log[i].writes[j]]
                0 <= i < c.commit_log.len() && 0 <= j < c.commit_log[i].writes.len()
                    && c.commit_log[i].ts > c.committed_floor && keys.contains(
                    c.commit_log[i].writes[j].0,
                )
            &&& r.nodes == c.nodes
            &&& r.history == c.history
        }),
{
    let r = c.subscribed(node, keys);
    assert(r.subs.drop_last() =~= c.subs);
    if c.stale_since(c.committed_floor, keys) {
        let i = choose|i: int|
            0 <= i < c.commit_log.len() && (#[trigger] c.commit_log[i]).ts > c.committed_floor
                && state::touches(c.commit_log[i].writes, keys);
        let j = choose|j: int|
            0 <= j < c.commit_log[i].writes.len() && keys.contains(
                #[trigger] c.commit_log[i].writes[j].0,
            );
        assert(keys.contains(c.commit_log[i].writes[j].0));
    }
    if exists|i: int, j: int|
        #![trigger c.commit_log[i].writes[j]]
        0 <= i < c.commit_log.len() && 0 <= j < c.commit_log[i].writes.len() && c.commit_log[i].ts
            > c.committed_floor && keys.contains(c.commit_log[i].writes[j].0) {
        let (i, j) = choose|i: int, j: int|
            #![trigger c.commit_log[i].writes[j]]
            0 <= i < c.commit_log.len() && 0 <= j < c.commit_log[i].writes.len()
                && c.commit_log[i].ts > c.committed_floor && keys.contains(
                c.commit_log[i].writes[j].0,
            );
        assert(keys.contains(c.commit_log[i].writes[j].0));
        assert(state::touches(c.commit_log[i].writes, keys));
    }
}

/// A subscription is invalidated by a write to what it watches after it was
/// registered, and stays so.
pub proof fn subscriptions_are_hit_by_later_writes(s: state::SubState, ts: Ts, touched: bool)
    ensures
        s.hit_by(ts, touched).invalidated <==> s.invalidated || (touched && ts > s.registered_ts),
        s.hit_by(ts, touched).node == s.node,
        s.hit_by(ts, touched).read_keys == s.read_keys,
        s.hit_by(ts, touched).registered_ts == s.registered_ts,
{
}

/// An entry that a node replays shows in its replica unless it has something newer,
/// moves what it knows of the source forward, and reaches the subscriptions there;
/// its own entries it has already.
pub proof fn replicas_take_in_entries(c: ClusterState, node: NodeId, idx: int, i: int)
    requires
        c.shaped(),
        node < c.num_partitions,
        0 <= idx < c.commit_log.len(),
    ensures
        ({
            let e = c.commit_log[idx];
            let r = c.replayed_one(node, idx);
            &&& e.source == node ==> r == c
            &&& e.source != node ==> {
                &&& r.node(node).frontier_of(e.source) >= e.ts
                &&& r.node(node).frontier_of(e.source) >= c.node(node).frontier_of(e.source)
                &&& r.frontier_samples.len() == c.frontier_samples.len() + 1
                &&& 0 <= i < c.subs.len() && c.subs[i].node == node && e.ts
                    > c.subs[i].registered_ts && state::touches(e.writes, c.subs[i].read_keys)
                    ==> r.subs[i].invalidated
                &&& 0 <= i < c.subs.len() && c.subs[i].node != node ==> r.subs[i] == c.subs[i]
            }
            &&& r.node(node).store == c.node(node).store
            &&& r.history == c.history
        }),
{
}

/// What is replayed of a key is there unless there was something newer.
pub proof fn replicas_keep_the_newest(
    replica: Map<Key, (Ts, Value)>,
    ts: Ts,
    writes: Seq<(Key, Value)>,
    key: Key,
    value: Value,
)
    ensures
        ({
            let before = state::replica_with(replica, ts, writes);
            let r = state::replica_with(replica, ts, writes.push((key, value)));
            &&& state::replica_with(replica, ts, Seq::empty()) == replica
            &&& before.contains_key(key) && before[key].0 > ts ==> r == before
            &&& !(before.contains_key(key) && before[key].0 > ts) ==> r == before.insert(
                key,
                (ts, value),
            )
        }),
{
    assert(writes.push((key, value)).drop_last() == writes);
}

/// Keys are spread over the partitions by their remainder, and a node that is down
/// begins nothing.
pub proof fn keys_are_spread_by_remainder(w: World, key: Key, origin: NodeId)
    requires
        w.cluster.num_partitions > 0,
    ensures
        w.cluster.owner(key) == key % w.cluster.num_partitions,
        w.cluster.owner(key) < w.cluster.num_partitions,
        w.cluster.key_space() == 4 * w.cluster.num_partitions,
        !w.cluster.node(origin).up ==> w.transacted(origin) == w,
{
    assert(key % w.cluster.num_partitions < w.cluster.num_partitions);
}

} // verus!
