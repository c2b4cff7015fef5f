//! The invariant of the cluster together with its transport.
use crate::model::preservation;
use crate::model::safety;
use crate::model::state;
use crate::model::state::{ClusterState, CoordState, Decision, NodeState, World};
use crate::network;
use crate::network::{EnvelopeView, MsgView, NetState};
use crate::ordered;
use crate::rng::RngState;
use crate::text;
use crate::types::{Key, NodeId, SimTime, Ts, TxnId, Value};
use vstd::prelude::*;

verus! {

/// Prepare requests in a longer queue.
proof fn lemma_prepares_push(q: Seq<EnvelopeView>, e: EnvelopeView)
    ensures
        safety::prepares(q.push(e)) == safety::prepares(q) + (if e.msg is Prepare {
            1nat
        } else {
            0nat
        }),
{
    assert(q.push(e).drop_last() =~= q);
}

proof fn lemma_prepares_first(q: Seq<EnvelopeView>)
    requires
        q.len() > 0,
    ensures
        safety::prepares(q) == safety::prepares(q.skip(1)) + (if q[0].msg is Prepare {
            1nat
        } else {
            0nat
        }),
    decreases q.len(),
{
    if q.len() == 1 {
        assert(q.drop_last() =~= Seq::empty());
        assert(q.skip(1) =~= Seq::empty());
    } else {
        lemma_prepares_first(q.drop_last());
        assert(q.skip(1).drop_last() =~= q.drop_last().skip(1));
    }
}

proof fn lemma_prepares_slotted(q: Seq<EnvelopeView>, e: EnvelopeView)
    ensures
        safety::prepares(network::slotted(q, e)) == safety::prepares(q) + (if e.msg is Prepare {
            1nat
        } else {
            0nat
        }),
        forall|i: int|
            0 <= i < network::slotted(q, e).len() ==> q.contains(
                #[trigger] network::slotted(q, e)[i],
            ) || network::slotted(q, e)[i] == e,
    decreases q.len(),
{
    if q.len() == 0 || !network::delivered_before(e, q.last()) {
        lemma_prepares_push(q, e);
        let s = q.push(e);
        assert forall|i: int| 0 <= i < s.len() implies q.contains(#[trigger] s[i]) || s[i] == e by {
            if i < q.len() {
                assert(q[i] == s[i]);
            }
        }
    } else {
        let p = q.drop_last();
        lemma_prepares_slotted(p, e);
        lemma_prepares_push(network::slotted(p, e), q.last());
        let s = network::slotted(q, e);
        let t = network::slotted(p, e);
        assert forall|i: int| 0 <= i < s.len() implies q.contains(#[trigger] s[i]) || s[i] == e by {
            if i < t.len() {
                assert(s[i] == t[i]);
                if t[i] != e {
                    let j = choose|j: int| 0 <= j < p.len() && p[j] == t[i];
                    assert(q[j] == s[i]);
                }
            } else {
                assert(q[q.len() - 1] == s[i]);
            }
        }
    }
}

/// Sorting loses nothing and adds nothing.
proof fn lemma_prepares_ordered(q: Seq<EnvelopeView>)
    ensures
        safety::prepares(network::in_delivery_order(q)) == safety::prepares(q),
        forall|i: int|
            0 <= i < network::in_delivery_order(q).len() ==> q.contains(
                #[trigger] network::in_delivery_order(q)[i],
            ),
    decreases q.len(),
{
    if q.len() > 0 {
        let p = q.drop_last();
        lemma_prepares_ordered(p);
        lemma_prepares_slotted(network::in_delivery_order(p), q.last());
        let s = network::in_delivery_order(q);
        let t = network::in_delivery_order(p);
        assert forall|i: int| 0 <= i < s.len() implies q.contains(#[trigger] s[i]) by {
            if s[i] == q.last() {
                assert(q[q.len() - 1] == s[i]);
            } else {
                assert(t.contains(s[i]));
                let m = choose|m: int| 0 <= m < t.len() && t[m] == s[i];
                assert(p.contains(t[m]));
                let j = choose|j: int| 0 <= j < p.len() && p[j] == t[m];
                assert(q[j] == s[i]);
            }
        }
    }
}

proof fn lemma_kept_members(q: Seq<EnvelopeView>, keep: spec_fn(EnvelopeView) -> bool)
    ensures
        forall|i: int|
            0 <= i < network::kept(q, keep).len() ==> q.contains(
                #[trigger] network::kept(q, keep)[i],
            ),
    decreases q.len(),
{
    if q.len() > 0 {
        let p = q.drop_last();
        lemma_kept_members(p, keep);
        let s = network::kept(q, keep);
        let t = network::kept(p, keep);
        assert forall|i: int| 0 <= i < s.len() implies q.contains(#[trigger] s[i]) by {
            if i < t.len() {
                assert(s[i] == t[i]);
                assert(p.contains(t[i]));
                let j = choose|j: int| 0 <= j < p.len() && p[j] == t[i];
                assert(q[j] == s[i]);
            } else {
                assert(q[q.len() - 1] == s[i]);
            }
        }
    }
}

proof fn lemma_prepares_split(
    q: Seq<EnvelopeView>,
    keep: spec_fn(EnvelopeView) -> bool,
    rest: spec_fn(EnvelopeView) -> bool,
)
    requires
        forall|e: EnvelopeView| #[trigger] keep(e) == !rest(e),
    ensures
        safety::prepares(network::kept(q, keep)) + safety::prepares(network::kept(q, rest))
            == safety::prepares(q),
    decreases q.len(),
{
    if q.len() > 0 {
        let p = q.drop_last();
        lemma_prepares_split(p, keep, rest);
        assert(keep(q.last()) == !rest(q.last()));
        lemma_prepares_push(network::kept(p, keep), q.last());
        lemma_prepares_push(network::kept(p, rest), q.last());
    }
}

/// What one send does to the transport.
proof fn lemma_send(
    c: ClusterState,
    net: NetState,
    rng: RngState,
    now: nat,
    from: NodeId,
    to: NodeId,
    msg: MsgView,
)
    requires
        c.expects_all(net.in_flight),
        forall|e: EnvelopeView| e.to == to && e.msg == msg ==> #[trigger] c.expects(e),
    ensures
        ({
            let r = net.send(rng, now, from, to, msg).0;
            let was = safety::prepares(net.in_flight);
            let is = safety::prepares(r.in_flight);
            &&& c.expects_all(r.in_flight)
            &&& r.config == net.config
            &&& r.isolated == net.isolated
            &&& r.next_seq <= net.next_seq + 2
            &&& r.dropped <= net.dropped + 1
            &&& r.duplicated <= net.duplicated + 1
            &&& !(msg is Prepare) ==> is == was
            &&& is <= was + 2
            &&& r.dropped + is <= net.dropped + was + 2
        }),
{
    let r = net.send(rng, now, from, to, msg).0;
    let q = net.in_flight;
    if r.in_flight.len() > q.len() {
        let e1 = r.in_flight[q.len() as int];
        lemma_prepares_push(q, e1);
        assert(c.expects(e1));
        if r.in_flight.len() > q.len() + 1 {
            let e2 = r.in_flight[q.len() as int + 1];
            assert(c.expects(e2));
            lemma_prepares_push(q.push(e1), e2);
            assert(r.in_flight =~= q.push(e1).push(e2));
        } else {
            assert(r.in_flight =~= q.push(e1));
        }
        assert forall|i: int| 0 <= i < r.in_flight.len() implies c.expects(
            #[trigger] r.in_flight[i],
        ) by {
            if i < q.len() {
                assert(r.in_flight[i] == q[i]);
            }
        }
    }
}

/// What sending to several nodes does to the transport.
proof fn lemma_sent(
    w: World,
    from: NodeId,
    tos: Seq<NodeId>,
    msg: spec_fn(NodeId) -> MsgView,
    prepare: bool,
)
    requires
        w.cluster.expects_all(w.net.in_flight),
        forall|i: int, e: EnvelopeView|
            0 <= i < tos.len() && e.to == #[trigger] tos[i] && e.msg == msg(tos[i])
                ==> #[trigger] w.cluster.expects(e),
        forall|i: int| 0 <= i < tos.len() ==> (msg(#[trigger] tos[i]) is Prepare ==> prepare),
    ensures
        ({
            let r = w.sent(from, tos, msg);
            let was = safety::prepares(w.net.in_flight);
            let is = safety::prepares(r.net.in_flight);
            &&& r.cluster == w.cluster
            &&& w.cluster.expects_all(r.net.in_flight)
            &&& r.net.config == w.net.config
            &&& r.net.isolated == w.net.isolated
            &&& r.net.next_seq <= w.net.next_seq + 2 * tos.len()
            &&& r.net.dropped <= w.net.dropped + tos.len()
            &&& r.net.duplicated <= w.net.duplicated + tos.len()
            &&& !prepare ==> is == was
            &&& is <= was + 2 * tos.len()
            &&& r.net.dropped + is <= w.net.dropped + was + 2 * tos.len()
        }),
    decreases tos.len(),
{
    if tos.len() > 0 {
        let head = tos.drop_last();
        assert forall|i: int, e: EnvelopeView|
            0 <= i < head.len() && e.to == #[trigger] head[i] && e.msg == msg(
                head[i],
            ) implies #[trigger] w.cluster.expects(e) by {
            assert(e.to == tos[i]);
        }
        assert forall|i: int| 0 <= i < head.len() implies (msg(#[trigger] head[i]) is Prepare
            ==> prepare) by {
            assert(head[i] == tos[i]);
        }
        lemma_sent(w, from, head, msg, prepare);
        let m = w.sent(from, head, msg);
        let last = tos.len() - 1;
        assert(tos.last() == tos[last]);
        lemma_send(
            w.cluster,
            m.net,
            m.rng,
            w.cluster.now as nat,
            from,
            tos.last(),
            msg(tos.last()),
        );
    }
}

impl World {
    /// The invariant, with room in the accounts for `more` further messages.
    pub open spec fn inv_with(self, rest: Seq<EnvelopeView>, more: nat) -> bool {
        &&& self.cluster.inv()
        &&& self.cluster.expects_all(self.net.in_flight)
        &&& self.cluster.expects_all(rest)
        &&& self.net.next_seq + 2 * (self.outstanding(rest) + more) <= 16 * self.cluster.tso_next
        &&& self.net.dropped + self.outstanding(rest) + more <= 8 * self.cluster.tso_next
        &&& self.net.duplicated + self.outstanding(rest) + more <= 8 * self.cluster.tso_next
    }
}

/// A control message to at most two nodes of the cluster is paid for.
proof fn lemma_told(
    w: World,
    from: NodeId,
    participants: Set<NodeId>,
    msg: spec_fn(NodeId) -> MsgView,
    rest: Seq<EnvelopeView>,
)
    requires
        w.inv_with(rest, 2),
        w.cluster.small_group(participants),
        forall|p: NodeId| !(#[trigger] msg(p) is Prepare),
    ensures
        w.sent(from, ordered::ascending_u32(participants), msg).inv(rest),
        w.sent(from, ordered::ascending_u32(participants), msg).cluster == w.cluster,
        w.sent(from, ordered::ascending_u32(participants), msg).net.config == w.net.config,
        w.sent(from, ordered::ascending_u32(participants), msg).net.isolated == w.net.isolated,
{
    let parts = ordered::ascending_u32(participants);
    ordered::lemma_ascending_u32(participants);
    crate::model::lemma_set_len(parts, participants);
    assert forall|i: int, e: EnvelopeView|
        0 <= i < parts.len() && e.to == #[trigger] parts[i] && e.msg == msg(
            parts[i],
        ) implies #[trigger] w.cluster.expects(e) by {
        assert(parts.to_set().contains(parts[i]));
        assert(!(msg(parts[i]) is Prepare));
    }
    lemma_sent(w, from, parts, msg, false);
}

/// More transactions may have become resolvable, none less.
proof fn lemma_expects_kept(c: ClusterState, r: ClusterState, q: Seq<EnvelopeView>)
    requires
        c.expects_all(q),
        r.num_partitions == c.num_partitions,
        forall|t: TxnId| c.resolvable(t) ==> #[trigger] r.resolvable(t),
    ensures
        r.expects_all(q),
{
    assert forall|i: int| 0 <= i < q.len() implies r.expects(#[trigger] q[i]) by {
        assert(c.expects(q[i]));
    }
}

/// The coordinator rolls an undecided transaction back.
proof fn lemma_rolled_back(
    w: World,
    node: NodeId,
    txn: TxnId,
    entry: CoordState,
    d: Decision,
    c1: ClusterState,
    rest: Seq<EnvelopeView>,
)
    requires
        w.inv(rest),
        node < w.cluster.num_partitions,
        w.cluster.node(node).undecided(txn),
        entry == (CoordState {
            decided: true,
            replies_ok: entry.replies_ok,
            replies_bad: entry.replies_bad,
            ..w.cluster.node(node).coordinating[txn]
        }),
        ({
            let f = w.cluster.with_coord(node, txn, entry).resolved(
                txn,
                d,
                entry.prepare_ts,
            ).refloored();
            c1 == (ClusterState { trace: c1.trace, ..f })
        }),
    ensures
        w.on(c1).rolled_back(node, txn, entry.participants).inv(rest),
        w.on(c1).rolled_back(node, txn, entry.participants).cluster == c1,
        w.on(c1).rolled_back(node, txn, entry.participants).net.config == w.net.config,
        w.on(c1).rolled_back(node, txn, entry.participants).net.isolated == w.net.isolated,
{
    let c = w.cluster;
    assert(c.nodes[node as int].coordinating.contains_key(txn));
    let e0 = c.with_coord(node, txn, entry).resolved(txn, d, entry.prepare_ts);
    preservation::lemma_resolved(c, node, txn, entry, d);
    preservation::lemma_refloored(e0);
    preservation::lemma_same_but_log(e0.refloored(), c1);
    assert forall|t: TxnId| c.resolvable(t) implies #[trigger] c1.resolvable(t) by {
        assert(e0.resolvable(t));
        preservation::lemma_refloored_resolvable(e0, t);
    }
    lemma_expects_kept(c, c1, w.net.in_flight);
    lemma_expects_kept(c, c1, rest);
    assert(w.on(c1).inv_with(rest, 2));
    lemma_told(
        w.on(c1),
        node,
        entry.participants,
        |p: NodeId| MsgView::RollbackPrepared { txn },
        rest,
    );
}

/// A verdict keeps the invariant.
#[verifier::rlimit(40)]
pub proof fn lemma_replied(
    w: World,
    coordinator: NodeId,
    txn: TxnId,
    participant: NodeId,
    ok: bool,
    rest: Seq<EnvelopeView>,
)
    requires
        w.inv(rest),
        coordinator < w.cluster.num_partitions,
    ensures
        w.replied(coordinator, txn, participant, ok).inv(rest),
        w.replied(coordinator, txn, participant, ok).cluster.tso_next == w.cluster.tso_next,
        w.replied(coordinator, txn, participant, ok).cluster.now == w.cluster.now,
        w.replied(coordinator, txn, participant, ok).cluster.num_partitions
            == w.cluster.num_partitions,
        w.replied(coordinator, txn, participant, ok).net.config == w.net.config,
        w.replied(coordinator, txn, participant, ok).net.isolated == w.net.isolated,
{
    let c = w.cluster;
    let known = c.node(coordinator).coordinating;
    let s0 = known[txn];
    let okset = if ok {
        s0.replies_ok.insert(participant)
    } else {
        s0.replies_ok
    };
    let badset = if ok {
        s0.replies_bad
    } else {
        s0.replies_bad.insert(participant)
    };
    let s1 = CoordState { replies_ok: okset, replies_bad: badset, ..s0 };
    let s2 = CoordState { decided: true, ..s1 };
    let ts = s0.prepare_ts;
    let decided = c.with_coord(coordinator, txn, s2);
    let ci = coordinator as int;
    if !known.contains_key(txn) {
    } else if s0.decided || !(s1.replies_ok == s0.participants || !s1.replies_bad.is_empty()) {
        let r = c.with_coord(coordinator, txn, s1);
        preservation::lemma_noted(c, coordinator, txn, okset, badset);
        lemma_expects_kept(c, r, w.net.in_flight);
        lemma_expects_kept(c, r, rest);
    } else {
        assert(c.nodes[ci].coordinating.contains_key(txn));
        assert(c.nodes[ci].undecided(txn));
        assert(c.pending_prepares.contains_key(ts));
        if s1.replies_ok == s0.participants {
            if decided.has_conflict(s0.reads, s0.begin_ts) || decided.pending_blocks(s0.reads, ts) {
                let c1 = decided.resolved(txn, Decision::RolledBack, ts).refloored().traced(
                    "decide ROLLBACK (read conflict) txn="@ + text::dec(txn as nat),
                );
                lemma_rolled_back(w, coordinator, txn, s2, Decision::RolledBack, c1, rest);
            } else {
                let d = Decision::Committed(ts);
                let e0 = decided.resolved(txn, d, ts);
                preservation::lemma_resolved(c, coordinator, txn, s2, d);
                let e1 = e0.traced(
                    "decide COMMIT txn="@ + text::dec(txn as nat) + " commit_ts="@ + text::dec(
                        ts as nat,
                    ),
                );
                preservation::lemma_same_but_log(e0, e1);
                assert forall|j: int| 0 <= j < e1.history.len() implies (
                #[trigger] e1.history[j]).commit_ts != ts by {
                    assert(!c.pending_prepares.contains_key(c.history[j].commit_ts));
                }
                assert forall|j: int, k: Key|
                    0 <= j < e1.history.len() && #[trigger] e1.history[j].reads.contains_key(k)
                        && e1.history[j].begin_ts < ts
                        < e1.history[j].commit_ts implies !s0.writes.contains_key(k) by {
                    assert(c.history[j].reads.contains_key(k));
                    assert(c.pending_prepares.contains_key(ts));
                    assert(!c.pending_prepares[ts].contains(k));
                    assert(s0.writes.dom().contains(k) == s0.writes.contains_key(k));
                }
                assert forall|k: Key| #[trigger] s0.reads.contains_key(k) implies s0.reads[k]
                    == safety::seen_at(e1.history, k, s0.begin_ts) by {
                    assert(c.nodes[ci].undecided(txn));
                    assert(c.nodes[ci].coordinating[txn].reads.contains_key(k));
                }
                assert(decided.stored()) by {
                    assert forall|k: Key|
                        decided.node(decided.owner(k)).versions(k)
                            == #[trigger] safety::timeline(decided.history, k) by {
                        assert(c.node(c.owner(k)).versions(k) == safety::timeline(c.history, k));
                        assert(decided.nodes[c.owner(k) as int].store
                            == c.nodes[c.owner(k) as int].store);
                    }
                }
                preservation::lemma_validated(decided, s0.reads, s0.begin_ts);
                assert forall|k: Key, p: Ts| #[trigger]
                    s0.reads.contains_key(k) && #[trigger] e1.pending_prepares.contains_key(p) && p
                        < ts implies !e1.pending_prepares[p].contains(k) by {
                    assert(decided.pending_prepares.contains_key(p));
                }
                preservation::lemma_landed(e1, s0.begin_ts, ts, s0.reads, s0.writes);
                let landed = e1.landed(ts, s0.writes).recorded(
                    s0.begin_ts,
                    ts,
                    s0.reads,
                    s0.writes,
                );
                preservation::lemma_refloored(landed);
                let c1 = e1.applied(ts, s0.writes).recorded(
                    s0.begin_ts,
                    ts,
                    s0.reads,
                    s0.writes,
                );
                assert(c1 =~= landed.refloored());
                assert forall|t: TxnId| c.resolvable(t) implies #[trigger] c1.resolvable(t) by {
                    assert(e0.resolvable(t));
                    assert(e1.resolvable(t));
                    assert(landed.resolvable(t));
                    preservation::lemma_refloored_resolvable(landed, t);
                }
                lemma_expects_kept(c, c1, w.net.in_flight);
                lemma_expects_kept(c, c1, rest);
                assert(w.on(c1).inv_with(rest, 2));
                lemma_told(
                    w.on(c1),
                    coordinator,
                    s0.participants,
                    |p: NodeId| MsgView::CommitPrepared { txn, commit_ts: ts },
                    rest,
                );
            }
        } else {
            let c1 = decided.resolved(txn, Decision::RolledBack, ts).traced(
                "decide ROLLBACK txn="@ + text::dec(txn as nat),
            ).refloored();
            lemma_rolled_back(w, coordinator, txn, s2, Decision::RolledBack, c1, rest);
        }
    }
}

impl ClusterState {
    /// From `self` to `r` no transaction started, no node went up or down, no
    /// placement changed and no time passed.
    pub open spec fn calmed_to(self, r: ClusterState) -> bool {
        &&& r.num_partitions == self.num_partitions
        &&& r.nodes.len() == self.nodes.len()
        &&& r.now == self.now
        &&& r.tso_next == self.tso_next
        &&& r.placement_version == self.placement_version
        &&& forall|i: int|
            0 <= i < self.nodes.len() ==> (#[trigger] r.nodes[i]).up == self.nodes[i].up
        &&& forall|i: int, t: TxnId|
            0 <= i < self.nodes.len() && #[trigger] r.nodes[i].undecided(t)
                ==> self.nodes[i].undecided(t) && r.nodes[i].coordinating[t].started_at
                == self.nodes[i].coordinating[t].started_at
    }

    /// `txn` is coordinated by `node` and past the prepare timeout.
    pub open spec fn is_late(self, node: int, txn: TxnId) -> bool {
        self.nodes[node].undecided(txn) && self.now - self.nodes[node].coordinating[txn].started_at
            > state::PREPARE_TIMEOUT
    }
}

proof fn lemma_calmed_chain(a: ClusterState, b: ClusterState, c: ClusterState)
    requires
        a.calmed_to(b),
        b.calmed_to(c),
    ensures
        a.calmed_to(c),
{
    assert forall|i: int| 0 <= i < a.nodes.len() implies (#[trigger] c.nodes[i]).up
        == a.nodes[i].up by {
        assert(b.nodes[i].up == a.nodes[i].up);
    }
    assert forall|i: int, t: TxnId|
        0 <= i < a.nodes.len() && #[trigger] c.nodes[i].undecided(t) implies a.nodes[i].undecided(t)
        && c.nodes[i].coordinating[t].started_at == a.nodes[i].coordinating[t].started_at by {
        assert(b.nodes[i].undecided(t));
    }
}

/// Nothing the coordinator's bookkeeping does starts a transaction.
proof fn lemma_coord_calms(c: ClusterState, node: NodeId, txn: TxnId, entry: CoordState)
    requires
        c.shaped(),
        node < c.num_partitions,
        c.node(node).coordinating.contains_key(txn),
        entry.decided || !c.node(node).coordinating[txn].decided,
        entry.started_at == c.node(node).coordinating[txn].started_at,
    ensures
        c.calmed_to(c.with_coord(node, txn, entry)),
{
    let r = c.with_coord(node, txn, entry);
    assert forall|i: int, t: TxnId|
        0 <= i < c.nodes.len() && #[trigger] r.nodes[i].undecided(t) implies c.nodes[i].undecided(t)
        && r.nodes[i].coordinating[t].started_at == c.nodes[i].coordinating[t].started_at by {}
}

/// A verdict starts nothing.
proof fn lemma_replied_calms(
    w: World,
    coordinator: NodeId,
    txn: TxnId,
    participant: NodeId,
    ok: bool,
    rest: Seq<EnvelopeView>,
)
    requires
        w.inv(rest),
        coordinator < w.cluster.num_partitions,
    ensures
        w.cluster.calmed_to(w.replied(coordinator, txn, participant, ok).cluster),
{
    let c = w.cluster;
    let known = c.node(coordinator).coordinating;
    let s0 = known[txn];
    let s1 = CoordState {
        replies_ok: if ok {
            s0.replies_ok.insert(participant)
        } else {
            s0.replies_ok
        },
        replies_bad: if ok {
            s0.replies_bad
        } else {
            s0.replies_bad.insert(participant)
        },
        ..s0
    };
    let s2 = CoordState { decided: true, ..s1 };
    let ts = s0.prepare_ts;
    let decided = c.with_coord(coordinator, txn, s2);
    let r = w.replied(coordinator, txn, participant, ok).cluster;
    if known.contains_key(txn) {
        lemma_coord_calms(c, coordinator, txn, s1);
        lemma_coord_calms(c, coordinator, txn, s2);
        let parts = ordered::ascending_u32(s0.participants);
        if s0.decided {
        } else if s1.replies_ok == s0.participants {
            if decided.has_conflict(s0.reads, s0.begin_ts) || decided.pending_blocks(s0.reads, ts) {
                let c1 = decided.resolved(txn, Decision::RolledBack, ts).refloored().traced(
                    "decide ROLLBACK (read conflict) txn="@ + text::dec(txn as nat),
                );
                lemma_sent_cluster(
                    w.on(c1),
                    coordinator,
                    parts,
                    |p: NodeId| MsgView::RollbackPrepared { txn },
                );
                assert(r == c1);
                lemma_same_nodes_calm(decided, c1);
                lemma_calmed_chain(c, decided, c1);
            } else {
                let e1 = decided.resolved(txn, Decision::Committed(ts), ts).traced(
                    "decide COMMIT txn="@ + text::dec(txn as nat) + " commit_ts="@ + text::dec(
                        ts as nat,
                    ),
                );
                let c1 = e1.applied(ts, s0.writes).recorded(s0.begin_ts, ts, s0.reads, s0.writes);
                lemma_sent_cluster(
                    w.on(c1),
                    coordinator,
                    parts,
                    |p: NodeId| MsgView::CommitPrepared { txn, commit_ts: ts },
                );
                assert(r == c1);
                assert(decided.calmed_to(c1)) by {
                    assert forall|i: int| 0 <= i < decided.nodes.len() implies (
                    #[trigger] c1.nodes[i]).up == decided.nodes[i].up && c1.nodes[i].coordinating
                        == decided.nodes[i].coordinating by {
                        assert(c1.nodes[i] == e1.node_applied(i as NodeId, ts, s0.writes));
                    }
                    assert forall|i: int, t: TxnId|
                        0 <= i < decided.nodes.len() && #[trigger] c1.nodes[i].undecided(
                            t,
                        ) implies decided.nodes[i].undecided(t)
                        && c1.nodes[i].coordinating[t].started_at
                        == decided.nodes[i].coordinating[t].started_at by {
                        assert(c1.nodes[i].coordinating == decided.nodes[i].coordinating);
                    }
                }
                lemma_calmed_chain(c, decided, c1);
            }
        } else if !s1.replies_bad.is_empty() {
            let c1 = decided.resolved(txn, Decision::RolledBack, ts).traced(
                "decide ROLLBACK txn="@ + text::dec(txn as nat),
            ).refloored();
            lemma_sent_cluster(
                w.on(c1),
                coordinator,
                parts,
                |p: NodeId| MsgView::RollbackPrepared { txn },
            );
            assert(r == c1);
            lemma_same_nodes_calm(decided, c1);
            lemma_calmed_chain(c, decided, c1);
        }
    } else {
        lemma_same_nodes_calm(c, c);
    }
}

/// Sending does not touch the cluster.
pub proof fn lemma_sent_cluster(
    w: World,
    from: NodeId,
    tos: Seq<NodeId>,
    msg: spec_fn(NodeId) -> MsgView,
)
    ensures
        w.sent(from, tos, msg).cluster == w.cluster,
{
}

proof fn lemma_same_nodes_calm(c: ClusterState, r: ClusterState)
    requires
        r.num_partitions == c.num_partitions,
        r.nodes == c.nodes,
        r.now == c.now,
        r.tso_next == c.tso_next,
        r.placement_version == c.placement_version,
    ensures
        c.calmed_to(r),
{
}

/// The first envelope of the queue is delivered.
pub proof fn lemma_delivered(w: World, q: Seq<EnvelopeView>)
    requires
        w.inv(q),
        q.len() > 0,
    ensures
        w.delivered(q[0].to, q[0].msg).inv(q.skip(1)),
        w.cluster.calmed_to(w.delivered(q[0].to, q[0].msg).cluster),
        w.delivered(q[0].to, q[0].msg).net.config == w.net.config,
        w.delivered(q[0].to, q[0].msg).net.isolated == w.net.isolated,
{
    let c = w.cluster;
    let rest = q.skip(1);
    let to = q[0].to;
    let msg = q[0].msg;
    let r = w.delivered(to, msg);
    lemma_prepares_first(q);
    assert(c.expects(q[0]));
    assert(c.expects_all(rest)) by {
        assert forall|i: int| 0 <= i < rest.len() implies c.expects(#[trigger] rest[i]) by {
            assert(rest[i] == q[i + 1]);
        }
    }
    assert(w.inv(rest));
    if !c.node(to).up {
        lemma_same_nodes_calm(c, c);
    } else {
        match msg {
            MsgView::Prepare { txn, coordinator, prepare_ts, writes, placement_version } => {
                let ok = c.accepts(to, prepare_ts, placement_version);
                let c1 = if ok {
                    c.intent_stored(to, txn, writes)
                } else {
                    c
                };
                assert(c.resolvable(txn));
                if ok {
                    assert forall|i: int, t: TxnId|
                        0 <= i < c.nodes.len() && #[trigger] c1.nodes[i].prepared.contains_key(
                            t,
                        ) implies c.resolvable(t) by {
                        if !(i == to && t == txn) {
                            assert(c.nodes[i].prepared.contains_key(t));
                        }
                    }
                    preservation::lemma_intents(c, c1);
                }
                lemma_expects_kept(c, c1, w.net.in_flight);
                lemma_expects_kept(c, c1, rest);
                let reply = |p: NodeId| MsgView::PrepareReply { txn, participant: to, ok };
                lemma_sent(w.on(c1), to, seq![coordinator], reply, false);
                assert(c.calmed_to(c1)) by {
                    assert forall|i: int, t: TxnId|
                        0 <= i < c.nodes.len() && #[trigger] c1.nodes[i].undecided(
                            t,
                        ) implies c.nodes[i].undecided(t) && c1.nodes[i].coordinating[t].started_at
                        == c.nodes[i].coordinating[t].started_at by {}
                }
            },
            MsgView::PrepareReply { txn, participant, ok } => {
                lemma_replied(w, to, txn, participant, ok, rest);
                lemma_replied_calms(w, to, txn, participant, ok, rest);
            },
            MsgView::CommitPrepared { txn, commit_ts } => {
                lemma_cleared(w, to, txn, rest);
            },
            MsgView::RollbackPrepared { txn } => {
                lemma_cleared(w, to, txn, rest);
            },
        }
    }
}

proof fn lemma_cleared(w: World, to: NodeId, txn: TxnId, rest: Seq<EnvelopeView>)
    requires
        w.inv(rest),
        to < w.cluster.num_partitions,
    ensures
        w.on(w.cluster.intent_cleared(to, txn)).inv(rest),
        w.cluster.calmed_to(w.cluster.intent_cleared(to, txn)),
{
    let c = w.cluster;
    let c1 = c.intent_cleared(to, txn);
    assert forall|i: int, t: TxnId|
        0 <= i < c.nodes.len() && #[trigger] c1.nodes[i].prepared.contains_key(
            t,
        ) implies c.resolvable(t) by {
        assert(c.nodes[i].prepared.contains_key(t));
    }
    preservation::lemma_intents(c, c1);
    lemma_expects_kept(c, c1, w.net.in_flight);
    lemma_expects_kept(c, c1, rest);
    assert forall|i: int, t: TxnId|
        0 <= i < c.nodes.len() && #[trigger] c1.nodes[i].undecided(t) implies c.nodes[i].undecided(
        t,
    ) && c1.nodes[i].coordinating[t].started_at == c.nodes[i].coordinating[t].started_at by {}
}

/// The first `j` envelopes of the queue are delivered.
pub proof fn lemma_all_delivered(w: World, q: Seq<EnvelopeView>, j: nat)
    requires
        w.inv(q),
        j <= q.len(),
    ensures
        w.all_delivered(q.take(j as int)).inv(q.skip(j as int)),
        w.cluster.calmed_to(w.all_delivered(q.take(j as int)).cluster),
        w.all_delivered(q.take(j as int)).net.config == w.net.config,
        w.all_delivered(q.take(j as int)).net.isolated == w.net.isolated,
    decreases j,
{
    if j == 0 {
        assert(q.skip(0) =~= q);
        assert(q.take(0) =~= Seq::empty());
        lemma_same_nodes_calm(w.cluster, w.cluster);
    } else {
        let i = (j - 1) as nat;
        lemma_all_delivered(w, q, i);
        let m = w.all_delivered(q.take(i as int));
        let left = q.skip(i as int);
        lemma_delivered(m, left);
        assert(left.skip(1) =~= q.skip(j as int));
        assert(q.take(j as int).drop_last() =~= q.take(i as int));
        assert(q.take(j as int).last() == left[0]);
        lemma_calmed_chain(
            w.cluster,
            m.cluster,
            m.delivered(left[0].to, left[0].msg).cluster,
        );
    }
}

/// The clock moves and the due envelopes leave the transport.
pub proof fn lemma_tick_begun(w: World, now: SimTime)
    requires
        w.inv(seq![]),
        w.cluster.now <= now,
    ensures
        (World {
            cluster: ClusterState { now, ..w.cluster },
            net: w.net.without_due(now as nat),
            rng: w.rng,
        }).inv(w.net.due(now as nat)),
{
    let c = w.cluster;
    let c1 = ClusterState { now, ..c };
    preservation::lemma_same_but_log(c, c1);
    let net = w.net;
    let due = net.due(now as nat);
    let is_due = |e: EnvelopeView| net.is_due(now as nat, e);
    let is_held = |e: EnvelopeView| !net.is_due(now as nat, e);
    let picked = network::kept(net.in_flight, is_due);
    lemma_prepares_split(net.in_flight, is_due, is_held);
    lemma_prepares_ordered(picked);
    lemma_kept_members(net.in_flight, is_due);
    lemma_kept_members(net.in_flight, is_held);
    lemma_expects_kept(c, c1, net.in_flight);
    assert(c1.expects_all(due)) by {
        assert forall|i: int| 0 <= i < due.len() implies c1.expects(#[trigger] due[i]) by {
            assert(picked.contains(due[i]));
            let m = choose|m: int| 0 <= m < picked.len() && picked[m] == due[i];
            assert(net.in_flight.contains(picked[m]));
            let k = choose|k: int| 0 <= k < net.in_flight.len() && net.in_flight[k] == picked[m];
            assert(c1.expects(net.in_flight[k]));
        }
    }
    let held = network::kept(net.in_flight, is_held);
    assert(c1.expects_all(held)) by {
        assert forall|i: int| 0 <= i < held.len() implies c1.expects(#[trigger] held[i]) by {
            assert(net.in_flight.contains(held[i]));
            let k = choose|k: int| 0 <= k < net.in_flight.len() && net.in_flight[k] == held[i];
            assert(c1.expects(net.in_flight[k]));
        }
    }
}

/// A tick's deliveries keep the invariant.
pub proof fn lemma_ticked(w: World, now: SimTime)
    requires
        w.inv(seq![]),
        w.cluster.now <= now,
    ensures
        w.ticked(now).inv(seq![]),
        (ClusterState { now, ..w.cluster }).calmed_to(w.ticked(now).cluster),
        w.ticked(now).net.config == w.net.config,
        w.ticked(now).net.isolated == w.net.isolated,
{
    lemma_tick_begun(w, now);
    let w1 = World {
        cluster: ClusterState { now, ..w.cluster },
        net: w.net.without_due(now as nat),
        rng: w.rng,
    };
    let due = w.net.due(now as nat);
    lemma_all_delivered(w1, due, due.len());
    assert(due.take(due.len() as int) =~= due);
    assert(due.skip(due.len() as int) =~= seq![]);
}

/// Giving up on a late transaction keeps the invariant and decides just that
/// one.
pub proof fn lemma_timed_out(w: World, node: NodeId, txn: TxnId)
    requires
        w.inv(seq![]),
        node < w.cluster.num_partitions,
        w.cluster.node(node).undecided(txn),
    ensures
        w.timed_out(node, txn).inv(seq![]),
        w.cluster.calmed_to(w.timed_out(node, txn).cluster),
        forall|i: int, t: TxnId|
            0 <= i < w.cluster.nodes.len() ==> #[trigger] w.timed_out(
                node,
                txn,
            ).cluster.nodes[i].undecided(t) == (w.cluster.nodes[i].undecided(t) && !(i == node && t
                == txn)),
        w.timed_out(node, txn).net.config == w.net.config,
        w.timed_out(node, txn).net.isolated == w.net.isolated,
{
    let c = w.cluster;
    let s = c.node(node).coordinating[txn];
    let entry = CoordState { decided: true, ..s };
    let d = if c.decisions.contains_key(txn) {
        c.decisions[txn]
    } else {
        Decision::RolledBack
    };
    let c1 = c.with_coord(node, txn, entry).resolved(txn, d, s.prepare_ts).refloored().traced(
        "watcher ROLLBACK (timeout) txn="@ + text::dec(txn as nat),
    );
    lemma_rolled_back(w, node, txn, entry, d, c1, seq![]);
    lemma_coord_calms(c, node, txn, entry);
    lemma_same_nodes_calm(c.with_coord(node, txn, entry), c1);
    lemma_calmed_chain(c, c.with_coord(node, txn, entry), c1);
}

/// The list of late transactions is complete, names each once, and names only
/// late ones.
pub proof fn lemma_expired(c: ClusterState, m: nat)
    requires
        c.shaped(),
        c.finite(),
        m <= c.num_partitions,
    ensures
        forall|a: int|
            0 <= a < c.expired(m).len() ==> (#[trigger] c.expired(m)[a]).0 < m && c.is_late(
                c.expired(m)[a].0 as int,
                c.expired(m)[a].1,
            ),
        forall|a: int, b: int|
            0 <= a < b < c.expired(m).len() ==> #[trigger] c.expired(m)[a]
                != #[trigger] c.expired(m)[b],
        forall|i: int, t: TxnId|
            0 <= i < m && #[trigger] c.is_late(i, t) ==> c.expired(m).contains(
                (i as NodeId, t),
            ),
    decreases m,
{
    if m > 0 {
        let l = (m - 1) as nat;
        lemma_expired(c, l);
        let prev = c.expired(l);
        let all = c.expired(m);
        let node = l as NodeId;
        let on = c.expired_on(node);
        let q = ordered::ascending_u64(on);
        assert(c.nodes[l as int].coordinating.dom().finite());
        ordered::lemma_ascending_u64(on);
        assert forall|a: int| 0 <= a < all.len() implies (#[trigger] all[a]).0 < m && c.is_late(
            all[a].0 as int,
            all[a].1,
        ) by {
            if a < prev.len() {
                assert(all[a] == prev[a]);
            } else {
                assert(all[a] == (node, q[a - prev.len()]));
                assert(q.to_set().contains(q[a - prev.len()]));
            }
        }
        assert forall|a: int, b: int| 0 <= a < b < all.len() implies #[trigger] all[a]
            != #[trigger] all[b] by {
            if b < prev.len() {
                assert(all[a] == prev[a] && all[b] == prev[b]);
            } else {
                assert(all[b] == (node, q[b - prev.len()]));
                if a < prev.len() {
                    assert(all[a] == prev[a]);
                } else {
                    assert(all[a] == (node, q[a - prev.len()]));
                }
            }
        }
        assert forall|i: int, t: TxnId| 0 <= i < m && #[trigger] c.is_late(
            i,
            t,
        ) implies all.contains((i as NodeId, t)) by {
            if i < l {
                assert(prev.contains((i as NodeId, t)));
                let k = choose|k: int| 0 <= k < prev.len() && prev[k] == (i as NodeId, t);
                assert(all[k] == prev[k]);
            } else {
                assert(on.contains(t));
                assert(q.to_set().contains(t));
                let k = choose|k: int| 0 <= k < q.len() && q[k] == t;
                assert(all[prev.len() + k] == (node, t));
            }
        }
    }
}

/// The first `j` late transactions are given up.
pub proof fn lemma_all_timed_out(w: World, j: nat)
    requires
        w.inv(seq![]),
        j <= w.cluster.expired(w.cluster.num_partitions as nat).len(),
    ensures
        ({
            let list = w.cluster.expired(w.cluster.num_partitions as nat);
            let r = w.all_timed_out(list.take(j as int));
            &&& r.inv(seq![])
            &&& w.cluster.calmed_to(r.cluster)
            &&& r.net.config == w.net.config
            &&& r.net.isolated == w.net.isolated
            &&& forall|a: int|
                j <= a < list.len() ==> r.cluster.nodes[(#[trigger] list[a]).0 as int].undecided(
                    list[a].1,
                )
            &&& forall|a: int|
                0 <= a < j ==> !r.cluster.nodes[(#[trigger] list[a]).0 as int].undecided(
                    list[a].1,
                )
        }),
    decreases j,
{
    let c = w.cluster;
    let list = c.expired(c.num_partitions as nat);
    lemma_expired(c, c.num_partitions as nat);
    if j == 0 {
        assert(list.take(0) =~= Seq::empty());
        lemma_same_nodes_calm(c, c);
        assert forall|a: int| 0 <= a < list.len() implies c.nodes[(
        #[trigger] list[a]).0 as int].undecided(list[a].1) by {
            assert(c.is_late(list[a].0 as int, list[a].1));
        }
    } else {
        let i = (j - 1) as nat;
        lemma_all_timed_out(w, i);
        let m = w.all_timed_out(list.take(i as int));
        let (node, txn) = list[i as int];
        assert(list[i as int].0 < c.num_partitions);
        assert(m.cluster.nodes[list[i as int].0 as int].undecided(list[i as int].1));
        lemma_timed_out(m, node, txn);
        assert(list.take(j as int).drop_last() =~= list.take(i as int));
        assert(list.take(j as int).last() == list[i as int]);
        let r = m.timed_out(node, txn);
        lemma_calmed_chain(c, m.cluster, r.cluster);
        assert forall|a: int| j <= a < list.len() implies r.cluster.nodes[(
        #[trigger] list[a]).0 as int].undecided(list[a].1) by {
            assert(list[i as int] != list[a]);
            assert(list[a].0 < c.num_partitions);
            assert(m.cluster.nodes[list[a].0 as int].undecided(list[a].1));
            assert(r.cluster.nodes[list[a].0 as int].undecided(list[a].1));
        }
        assert forall|a: int| 0 <= a < j implies !r.cluster.nodes[(
        #[trigger] list[a]).0 as int].undecided(list[a].1) by {
            assert(list[a].0 < c.num_partitions);
            assert(r.cluster.nodes[list[a].0 as int].undecided(list[a].1) == (
            m.cluster.nodes[list[a].0 as int].undecided(list[a].1) && !(list[a].0 == node
                && list[a].1 == txn)));
        }
    }
}

/// The background processes keep the invariant; afterwards no undecided
/// transaction is late, and a node that is up holds prepared slices of undecided
/// transactions only.
pub proof fn lemma_watched(w: World)
    requires
        w.inv(seq![]),
    ensures
        w.watched().inv(seq![]),
        w.cluster.calmed_to(w.watched().cluster),
        forall|i: int, t: TxnId|
            0 <= i < w.cluster.nodes.len() ==> !#[trigger] w.watched().cluster.is_late(i, t),
        forall|i: int, t: TxnId|
            0 <= i < w.cluster.nodes.len() && w.watched().cluster.nodes[i].up
                && #[trigger] w.watched().cluster.nodes[i].prepared.contains_key(t)
                ==> !w.watched().cluster.decisions.contains_key(t),
        w.watched().net.config == w.net.config,
        w.watched().net.isolated == w.net.isolated,
{
    let c = w.cluster;
    let n = c.num_partitions as nat;
    let list = c.expired(n);
    lemma_all_timed_out(w, list.len());
    lemma_expired(c, n);
    assert(list.take(list.len() as int) =~= list);
    let m = w.all_timed_out(list);
    let c1 = m.cluster;
    let c2 = c1.recovered();
    assert forall|i: int| 0 <= i < c1.nodes.len() implies #[trigger] c2.nodes[i] == (NodeState {
        prepared: c2.nodes[i].prepared,
        ..c1.nodes[i]
    }) by {}
    assert forall|i: int, t: TxnId|
        0 <= i < c1.nodes.len() && #[trigger] c2.nodes[i].prepared.contains_key(
            t,
        ) implies c1.resolvable(t) by {
        assert(c1.nodes[i].prepared.contains_key(t));
    }
    preservation::lemma_intents(c1, c2);
    lemma_expects_kept(c1, c2, m.net.in_flight);
    assert(c1.calmed_to(c2)) by {
        assert forall|i: int, t: TxnId|
            0 <= i < c1.nodes.len() && #[trigger] c2.nodes[i].undecided(
                t,
            ) implies c1.nodes[i].undecided(t) && c2.nodes[i].coordinating[t].started_at
            == c1.nodes[i].coordinating[t].started_at by {}
    }
    lemma_calmed_chain(c, c1, c2);
    assert forall|i: int, t: TxnId| 0 <= i < c.nodes.len() implies !#[trigger] c2.is_late(i, t) by {
        if c2.is_late(i, t) {
            assert(c2.nodes[i].undecided(t));
            assert(c.nodes[i].undecided(t));
            assert(c.is_late(i, t));
            assert(list.contains((i as NodeId, t)));
            let k = choose|k: int| 0 <= k < list.len() && list[k] == (i as NodeId, t);
            assert(!c1.nodes[list[k].0 as int].undecided(list[k].1));
            assert(c1.nodes[i].undecided(t));
        }
    }
}

/// The first `m` nodes catch up.
pub proof fn lemma_replicated(w: World, m: nat)
    requires
        w.inv(seq![]),
        m <= w.cluster.num_partitions,
    ensures
        ({
            let r = w.cluster.replicated(w.net.isolated, m);
            &&& w.on(r).inv(seq![])
            &&& w.cluster.calmed_to(r)
            &&& r.commit_log == w.cluster.commit_log
            &&& r.decisions == w.cluster.decisions
            &&& forall|i: int|
                0 <= i < r.nodes.len() ==> (#[trigger] r.nodes[i]).prepared
                    == w.cluster.nodes[i].prepared && r.nodes[i].coordinating
                    == w.cluster.nodes[i].coordinating
            &&& forall|i: int|
                0 <= i < m && w.cluster.nodes[i].up && !w.net.isolated.contains(i as NodeId) ==> (
                #[trigger] r.nodes[i]).cursor == r.commit_log.len()
        }),
    decreases m,
{
    let c = w.cluster;
    if m == 0 {
        lemma_same_nodes_calm(c, c);
    } else {
        let l = (m - 1) as nat;
        lemma_replicated(w, l);
        let s = c.replicated(w.net.isolated, l);
        let node = l as NodeId;
        let r = c.replicated(w.net.isolated, m);
        assert(s.nodes[l as int].up == c.nodes[l as int].up);
        if s.node(node).up && !w.net.isolated.contains(node) {
            preservation::lemma_replayed(s, node);
            lemma_expects_kept(s, r, w.net.in_flight);
            assert forall|i: int, t: TxnId|
                0 <= i < s.nodes.len() && #[trigger] r.nodes[i].undecided(
                    t,
                ) implies s.nodes[i].undecided(t) && r.nodes[i].coordinating[t].started_at
                == s.nodes[i].coordinating[t].started_at by {
                assert(r.nodes[i].coordinating == s.nodes[i].coordinating);
            }
            assert(s.calmed_to(r));
            lemma_calmed_chain(c, s, r);
            assert forall|i: int| 0 <= i < r.nodes.len() implies (#[trigger] r.nodes[i]).prepared
                == c.nodes[i].prepared && r.nodes[i].coordinating == c.nodes[i].coordinating by {
                assert(s.nodes[i].prepared == c.nodes[i].prepared);
            }
            assert forall|i: int|
                0 <= i < m && c.nodes[i].up && !w.net.isolated.contains(i as NodeId) implies (
            #[trigger] r.nodes[i]).cursor == r.commit_log.len() by {
                if i < l {
                    assert(s.nodes[i].cursor == s.commit_log.len());
                }
            }
        } else {
            assert forall|i: int|
                0 <= i < m && c.nodes[i].up && !w.net.isolated.contains(i as NodeId) implies (
            #[trigger] r.nodes[i]).cursor == r.commit_log.len() by {
                assert(i < l);
            }
        }
    }
}

impl World {
    /// Every node is up and connected, and what is undecided started at `t0` or
    /// before.
    pub open spec fn winding_down(self, t0: SimTime) -> bool {
        &&& self.net.isolated.is_empty()
        &&& forall|i: int|
            0 <= i < self.cluster.nodes.len() ==> (#[trigger] self.cluster.nodes[i]).up
        &&& forall|i: int, t: TxnId|
            0 <= i < self.cluster.nodes.len() && #[trigger] self.cluster.nodes[i].undecided(t)
                ==> self.cluster.nodes[i].coordinating[t].started_at <= t0
    }
}

/// One draining tick.
pub proof fn lemma_drained_once(w: World, t0: SimTime)
    requires
        w.inv(seq![]),
        w.winding_down(t0),
        w.cluster.now < u64::MAX,
    ensures
        ({
            let r = w.drained_once();
            &&& r.inv(seq![])
            &&& r.winding_down(t0)
            &&& r.cluster.now == w.cluster.now + 1
            &&& r.cluster.tso_next == w.cluster.tso_next
            &&& r.cluster.num_partitions == w.cluster.num_partitions
            &&& r.net.config == w.net.config
            &&& r.cluster.caught_up()
            &&& r.cluster.now > t0 + state::PREPARE_TIMEOUT ==> r.cluster.nothing_prepared()
        }),
{
    let now = (w.cluster.now + 1) as u64;
    let w1 = w.ticked(now);
    lemma_ticked(w, now);
    let w2 = w1.watched();
    lemma_watched(w1);
    let r = w2.synced();
    lemma_replicated(w2, w2.cluster.num_partitions as nat);
    let c0 = ClusterState { now, ..w.cluster };
    lemma_calmed_chain(c0, w1.cluster, w2.cluster);
    lemma_calmed_chain(c0, w2.cluster, r.cluster);
    assert(r.winding_down(t0)) by {
        assert forall|i: int| 0 <= i < r.cluster.nodes.len() implies (
        #[trigger] r.cluster.nodes[i]).up by {
            assert(w.cluster.nodes[i].up);
        }
        assert forall|i: int, t: TxnId|
            0 <= i < r.cluster.nodes.len() && #[trigger] r.cluster.nodes[i].undecided(
                t,
            ) implies r.cluster.nodes[i].coordinating[t].started_at <= t0 by {
            assert(c0.nodes[i].undecided(t));
            assert(w.cluster.nodes[i].undecided(t));
        }
    }
    assert(r.cluster.caught_up()) by {
        assert forall|i: int| 0 <= i < r.cluster.nodes.len() implies (
        #[trigger] r.cluster.nodes[i]).cursor == r.cluster.commit_log.len() by {
            assert(w.cluster.nodes[i].up);
            assert(w2.cluster.nodes[i].up == c0.nodes[i].up);
        }
    }
    if r.cluster.now > t0 + state::PREPARE_TIMEOUT {
        assert forall|i: int| 0 <= i < r.cluster.nodes.len() implies (
        #[trigger] r.cluster.nodes[i]).prepared.dom().is_empty() by {
            assert forall|t: TxnId| !r.cluster.nodes[i].prepared.dom().contains(t) by {
                if r.cluster.nodes[i].prepared.contains_key(t) {
                    assert(w2.cluster.nodes[i].prepared.contains_key(t));
                    assert(w.cluster.nodes[i].up);
                    assert(w2.cluster.nodes[i].up == c0.nodes[i].up);
                    assert(!w2.cluster.decisions.contains_key(t));
                    assert(w2.cluster.resolvable(t));
                    let k = choose|k: int|
                        0 <= k < w2.cluster.nodes.len()
                            && #[trigger] w2.cluster.nodes[k].undecided(t);
                    assert(c0.nodes[k].undecided(t));
                    assert(w.cluster.nodes[k].undecided(t));
                    assert(w2.cluster.is_late(k, t));
                }
            }
        }
    }
}

/// Draining ends with the invariant, every replica current, and nothing
/// prepared when there was time for the last prepare to expire.
pub proof fn lemma_drained(w: World, t0: SimTime, fuel: nat)
    requires
        w.inv(seq![]),
        w.winding_down(t0),
        fuel > 0,
        w.cluster.now + fuel <= u64::MAX,
        w.cluster.now + fuel > t0 + state::PREPARE_TIMEOUT,
    ensures
        ({
            let r = w.drained(fuel);
            &&& r.inv(seq![])
            &&& r.cluster.nothing_prepared()
            &&& r.cluster.caught_up()
            &&& r.cluster.tso_next == w.cluster.tso_next
            &&& r.cluster.num_partitions == w.cluster.num_partitions
        }),
    decreases fuel,
{
    let r = w.drained_once();
    lemma_drained_once(w, t0);
    if !r.is_quiet() {
        if fuel == 1 {
            assert(r.drained(0) == r);
        } else {
            lemma_drained(r, t0, (fuel - 1) as nat);
        }
    }
}

/// Restarting keeps the invariant.
pub proof fn lemma_restarted(w: World, node: NodeId, rest: Seq<EnvelopeView>)
    requires
        w.inv(rest),
        node < w.cluster.num_partitions,
    ensures
        w.on(w.cluster.restarted(node)).inv(rest),
        w.cluster.restarted(node).node(node).up,
        forall|i: int|
            0 <= i < w.cluster.nodes.len() ==> (w.cluster.nodes[i].up ==> (
            #[trigger] w.cluster.restarted(node).nodes[i]).up)
                && w.cluster.restarted(node).nodes[i].coordinating
                == w.cluster.nodes[i].coordinating,
        w.cluster.restarted(node).nodes.len() == w.cluster.nodes.len(),
        w.cluster.restarted(node).num_partitions == w.cluster.num_partitions,
        w.cluster.restarted(node).tso_next == w.cluster.tso_next,
        w.cluster.restarted(node).now == w.cluster.now,
{
    let c = w.cluster;
    let r = c.restarted(node);
    preservation::lemma_same_but_log(c, r);
    lemma_expects_kept(c, r, w.net.in_flight);
    lemma_expects_kept(c, r, rest);
}

pub proof fn lemma_restarted_all(w: World, m: nat)
    requires
        w.inv(seq![]),
        m <= w.cluster.num_partitions,
    ensures
        ({
            let r = w.cluster.restarted_all(m);
            &&& w.on(r).inv(seq![])
            &&& r.nodes.len() == w.cluster.nodes.len()
            &&& r.num_partitions == w.cluster.num_partitions
            &&& r.tso_next == w.cluster.tso_next
            &&& r.now == w.cluster.now
            &&& forall|i: int| 0 <= i < m ==> (#[trigger] r.nodes[i]).up
            &&& forall|i: int|
                0 <= i < w.cluster.nodes.len() ==> (#[trigger] r.nodes[i]).coordinating
                    == w.cluster.nodes[i].coordinating
        }),
    decreases m,
{
    if m > 0 {
        let l = (m - 1) as nat;
        lemma_restarted_all(w, l);
        let s = w.cluster.restarted_all(l);
        lemma_restarted(w.on(s), l as NodeId, seq![]);
        let r = w.cluster.restarted_all(m);
        assert forall|i: int| 0 <= i < m implies (#[trigger] r.nodes[i]).up by {
            if i < l {
                assert(s.nodes[i].up);
            }
        }
        assert forall|i: int| 0 <= i < w.cluster.nodes.len() implies (
        #[trigger] r.nodes[i]).coordinating == w.cluster.nodes[i].coordinating by {
            assert(s.nodes[i].coordinating == w.cluster.nodes[i].coordinating);
        }
    }
}

/// The world as it enters draining.
pub proof fn lemma_quiesce_begun(w: World, w1: World)
    requires
        w.inv(seq![]),
        w1 == (World {
            cluster: w.cluster.restarted_all(w.cluster.num_partitions as nat),
            net: NetState { isolated: Set::empty(), ..w.net },
            rng: w.rng,
        }),
    ensures
        w1.inv(seq![]),
        w1.winding_down(w.cluster.now),
        w1.cluster.now == w.cluster.now,
        w1.cluster.tso_next == w.cluster.tso_next,
        w1.cluster.num_partitions == w.cluster.num_partitions,
{
    lemma_restarted_all(w, w.cluster.num_partitions as nat);
    assert forall|i: int, t: TxnId|
        0 <= i < w1.cluster.nodes.len() && #[trigger] w1.cluster.nodes[i].undecided(
            t,
        ) implies w1.cluster.nodes[i].coordinating[t].started_at <= w.cluster.now by {
        assert(w1.cluster.nodes[i].coordinating == w.cluster.nodes[i].coordinating);
        assert(w.cluster.nodes[i].undecided(t));
    }
}

/// After quiescing nothing is prepared and every replica is current.
pub proof fn lemma_quiesced(w: World)
    requires
        w.inv(seq![]),
        w.cluster.now + state::QUIESCE_TICKS <= u64::MAX,
    ensures
        w.quiesced().inv(seq![]),
        w.quiesced().cluster.nothing_prepared(),
        w.quiesced().cluster.caught_up(),
        w.quiesced().cluster.tso_next == w.cluster.tso_next,
{
    let w1 = World {
        cluster: w.cluster.restarted_all(w.cluster.num_partitions as nat),
        net: NetState { isolated: Set::empty(), ..w.net },
        rng: w.rng,
    };
    lemma_quiesce_begun(w, w1);
    lemma_drained(w1, w.cluster.now, state::QUIESCE_TICKS as nat);
}

/// Every drawn read holds its snapshot's value.
proof fn lemma_drawn_reads(c: ClusterState, rng: RngState, begin_ts: Ts, m: nat)
    ensures
        forall|k: Key| #[trigger]
            state::drawn_reads(c, rng, begin_ts, m).1.contains_key(k) ==> state::drawn_reads(
                c,
                rng,
                begin_ts,
                m,
            ).1[k] == c.value_as_of(k, begin_ts),
    decreases m,
{
    if m > 0 {
        lemma_drawn_reads(c, rng, begin_ts, (m - 1) as nat);
        let (ok, reads, r) = state::drawn_reads(c, rng, begin_ts, (m - 1) as nat);
        assert(forall|k: Key| #[trigger]
            reads.contains_key(k) ==> reads[k] == c.value_as_of(k, begin_ts));
    }
}

/// At most as many keys as were drawn.
pub proof fn lemma_drawn_keys(rng: RngState, space: int, m: nat)
    ensures
        state::drawn_keys(rng, space, m).0.finite(),
        state::drawn_keys(rng, space, m).0.len() <= m,
    decreases m,
{
    if m > 0 {
        lemma_drawn_keys(rng, space, (m - 1) as nat);
    }
}

/// A two-phase transaction starts.
#[verifier::rlimit(40)]
proof fn lemma_two_phase_begun(
    w: World,
    coordinator: NodeId,
    reads: Map<Key, Value>,
    write_keys: Set<Key>,
    participants: Set<NodeId>,
)
    requires
        w.inv(seq![]),
        coordinator < w.cluster.num_partitions,
        w.cluster.small_group(participants),
        write_keys.finite(),
        write_keys.len() <= 2,
        2 * w.cluster.tso_next + 2 <= u64::MAX,
        forall|k: Key| #[trigger]
            reads.contains_key(k) ==> reads[k] == w.cluster.value_as_of(
                k,
                w.cluster.committed_floor,
            ),
    ensures
        ({
            let r = w.two_phase_begun(
                coordinator,
                w.cluster.committed_floor,
                reads,
                write_keys,
                participants,
            );
            &&& r.inv(seq![])
            &&& r.cluster.tso_next <= w.cluster.tso_next + 1
            &&& r.cluster.placement_version == w.cluster.placement_version
            &&& r.cluster.num_partitions == w.cluster.num_partitions
            &&& r.cluster.now == w.cluster.now
            &&& r.net.config == w.net.config
        }),
{
    let c = w.cluster;
    let begin_ts = c.committed_floor;
    let txn = c.next_txn;
    let ts = c.next_ts();
    let keys = ordered::ascending_u32(write_keys);
    let parts = ordered::ascending_u32(participants);
    let writes = state::numbered(keys, c.next_value);
    ordered::lemma_ascending_u32(write_keys);
    ordered::lemma_ascending_u32(participants);
    crate::model::lemma_set_len(keys, write_keys);
    crate::model::lemma_set_len(parts, participants);
    preservation::lemma_numbered(keys, c.next_value);
    assert(ts == c.tso_next);
    let entry = CoordState {
        begin_ts,
        prepare_ts: ts,
        started_at: c.now,
        participants,
        replies_ok: Set::empty(),
        replies_bad: Set::empty(),
        reads,
        writes,
        decided: false,
    };
    if !c.has_conflict(reads, begin_ts) {
        let c1 = ClusterState {
            next_txn: (c.next_txn + 1) as u64,
            pending_prepares: c.pending_prepares.insert(ts, write_keys),
            next_value: (c.next_value + keys.len()) as u64,
            ..c.allocated()
        }.traced(
            "begin 2PC txn="@ + text::dec(txn as nat) + " coord="@ + text::dec(coordinator as nat)
                + " parts="@ + text::list_text("{"@, parts, "}"@) + " prepare_ts="@ + text::dec(
                ts as nat,
            ),
        ).with_coord(coordinator, txn, entry);
        assert forall|k: Key| #[trigger] entry.reads.contains_key(k) implies entry.reads[k]
            == safety::seen_at(c.history, k, entry.begin_ts) by {
            assert(c.node(c.owner(k)).versions(k) == safety::timeline(c.history, k));
        }
        preservation::lemma_begun(c, coordinator, entry, keys.len(), c1);
        lemma_expects_kept(c, c1, w.net.in_flight);
        let msg = |p: NodeId|
            MsgView::Prepare {
                txn,
                coordinator,
                prepare_ts: ts,
                writes: state::slice(c.num_partitions, writes, p),
                placement_version: c.placement_version,
            };
        assert forall|i: int, e: EnvelopeView|
            0 <= i < parts.len() && e.to == #[trigger] parts[i] && e.msg == msg(
                parts[i],
            ) implies #[trigger] c1.expects(e) by {
            assert(parts.to_set().contains(parts[i]));
        }
        lemma_sent(w.on(c1), coordinator, parts, msg, true);
    }
}

/// A transaction attempt keeps the invariant and uses one timestamp at most.
pub proof fn lemma_transacted(w: World, origin: NodeId)
    requires
        w.inv(seq![]),
        origin < w.cluster.num_partitions,
        2 * w.cluster.tso_next + 2 <= u64::MAX,
    ensures
        w.transacted(origin).inv(seq![]),
        w.transacted(origin).cluster.tso_next <= w.cluster.tso_next + 1,
        w.transacted(origin).cluster.placement_version == w.cluster.placement_version,
        w.transacted(origin).cluster.num_partitions == w.cluster.num_partitions,
        w.transacted(origin).cluster.now == w.cluster.now,
        w.transacted(origin).net.config == w.net.config,
{
    let c = w.cluster;
    let (n_reads, r1) = w.rng.int_in(1, 3);
    let (n_writes, r2) = r1.int_in(1, 2);
    let (ok, reads, r3) = state::drawn_reads(c, r2, c.committed_floor, n_reads as nat);
    let (keys, r4) = state::drawn_keys(r3, c.key_space(), n_writes as nat);
    let owners = state::owners(c.num_partitions, keys);
    lemma_drawn_reads(c, r2, c.committed_floor, n_reads as nat);
    lemma_drawn_keys(r3, c.key_space(), n_writes as nat);
    if !c.node(origin).up {
    } else if !ok {
    } else {
        crate::model::lemma_owners_len(c.num_partitions, keys);
        if owners.len() <= 1 {
            preservation::lemma_single_committed(c, reads, keys);
            lemma_expects_kept(
                c,
                c.single_committed(c.committed_floor, reads, keys),
                w.net.in_flight,
            );
        } else {
            lemma_two_phase_begun(World { rng: r4, ..w }, origin, reads, keys, owners);
        }
    }
}

/// A crash keeps the invariant.
pub proof fn lemma_crash(w: World, node: NodeId)
    requires
        w.inv(seq![]),
        node < w.cluster.num_partitions,
    ensures
        w.on(w.cluster.crashed(node)).inv(seq![]),
{
    preservation::lemma_crashed(w.cluster, node);
    lemma_expects_kept(w.cluster, w.cluster.crashed(node), w.net.in_flight);
}

/// A placement change keeps the invariant.
pub proof fn lemma_bumped(w: World, refreshed: Seq<NodeId>)
    requires
        w.inv(seq![]),
    ensures
        w.on(w.cluster.placement_bumped(refreshed)).inv(seq![]),
{
    let r = w.cluster.placement_bumped(refreshed);
    preservation::lemma_same_but_log(w.cluster, r);
    lemma_expects_kept(w.cluster, r, w.net.in_flight);
}

/// A subscription keeps the invariant.
pub proof fn lemma_subscription_added(w: World, node: NodeId)
    requires
        w.inv(seq![]),
        node < w.cluster.num_partitions,
    ensures
        w.subscription_added(node).inv(seq![]),
{
    let (n, r1) = w.rng.int_in(1, 2);
    let (keys, r2) = state::drawn_keys(r1, w.cluster.key_space(), n as nat);
    preservation::lemma_subscribed(w.cluster, node, keys);
    lemma_expects_kept(w.cluster, w.cluster.subscribed(node, keys), w.net.in_flight);
}

/// A world that has done nothing yet satisfies the invariant.
pub proof fn lemma_fresh(w: World)
    requires
        w.cluster == ClusterState::fresh(w.cluster.num_partitions),
        w.cluster.num_partitions > 0,
        w.cluster.key_space() <= u32::MAX,
        w.net == NetState::fresh(w.net.config),
    ensures
        w.inv(seq![]),
{
    let c = w.cluster;
    assert forall|i: int| 0 <= i < c.nodes.len() implies #[trigger] c.nodes[i]
        == NodeState::fresh() by {}
    assert forall|k: Key| c.node(c.owner(k)).versions(k) == #[trigger] safety::timeline(
        c.history,
        k,
    ) by {
        assert(c.owner(k) < c.num_partitions);
    }
    assert(c.pending_prepares.dom() =~= Set::empty());
}

} // verus!
