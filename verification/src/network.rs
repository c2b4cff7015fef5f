//! In-simulation message transport with fault injection.
//!
//! Models the replication channel and the two-phase commit channel as an
//! unreliable, asynchronous network: messages take a variable number of ticks
//! to arrive, can be dropped or duplicated, and links can be partitioned so no
//! message crosses between two groups of nodes until the partition heals.
//!
//! All faults are decided from the run's seeded generator, so a delivery
//! schedule is a function of the seed.
use crate::rng::{Rng, RngState};
use crate::types::{Key, NodeId, SimTime, Ts, TxnId, Value};
use std::collections::BTreeSet;
use vstd::prelude::*;

verus! {

broadcast use {vstd::std_specs::btree::group_btree_axioms, vstd::laws_cmp::group_laws_cmp};

/// A message in flight between nodes.
///
/// Only two-phase control messages travel over this lossy channel, with the
/// durable decision log as the backstop. Replication rides a separate durable
/// log.
#[derive(Debug)]
pub enum Msg {
    /// The coordinator asks a participant to prepare its slice.
    Prepare {
        txn: TxnId,
        coordinator: NodeId,
        prepare_ts: Ts,
        writes: Vec<(Key, Value)>,
        placement_version: u64,
    },
    /// A participant's prepare verdict.
    PrepareReply { txn: TxnId, participant: NodeId, ok: bool },
    /// The coordinator's commit decision for a prepared participant.
    CommitPrepared { txn: TxnId, commit_ts: Ts },
    /// The coordinator's rollback decision.
    RollbackPrepared { txn: TxnId },
}

/// What a [`Msg`] says.
pub enum MsgView {
    Prepare {
        txn: TxnId,
        coordinator: NodeId,
        prepare_ts: Ts,
        writes: Seq<(Key, Value)>,
        placement_version: u64,
    },
    PrepareReply { txn: TxnId, participant: NodeId, ok: bool },
    CommitPrepared { txn: TxnId, commit_ts: Ts },
    RollbackPrepared { txn: TxnId },
}

impl View for Msg {
    type V = MsgView;

    open spec fn view(&self) -> MsgView {
        match *self {
            Msg::Prepare { txn, coordinator, prepare_ts, writes, placement_version } =>
                MsgView::Prepare {
                    txn,
                    coordinator,
                    prepare_ts,
                    writes: writes@,
                    placement_version,
                },
            Msg::PrepareReply { txn, participant, ok } => MsgView::PrepareReply {
                txn,
                participant,
                ok,
            },
            Msg::CommitPrepared { txn, commit_ts } => MsgView::CommitPrepared { txn, commit_ts },
            Msg::RollbackPrepared { txn } => MsgView::RollbackPrepared { txn },
        }
    }
}

/// A copy of a list of writes.
pub fn copy_writes(writes: &Vec<(Key, Value)>) -> (r: Vec<(Key, Value)>)
    ensures
        r@ == writes@,
{
    let mut r: Vec<(Key, Value)> = Vec::new();
    let mut i: usize = 0;
    while i < writes.len()
        invariant
            i <= writes.len(),
            r@ == writes@.take(i as int),
        decreases writes.len() - i,
    {
        r.push(writes[i]);
        i = i + 1;
        assert(writes@.take(i as int) =~= writes@.take(i - 1).push(writes@[i - 1]));
    }
    assert(writes@.take(i as int) =~= writes@);
    r
}

impl Clone for Msg {
    fn clone(&self) -> (r: Self)
        ensures
            r@ == self@,
    {
        match self {
            Msg::Prepare { txn, coordinator, prepare_ts, writes, placement_version } =>
                Msg::Prepare {
                    txn: *txn,
                    coordinator: *coordinator,
                    prepare_ts: *prepare_ts,
                    writes: copy_writes(writes),
                    placement_version: *placement_version,
                },
            Msg::PrepareReply { txn, participant, ok } => Msg::PrepareReply {
                txn: *txn,
                participant: *participant,
                ok: *ok,
            },
            Msg::CommitPrepared { txn, commit_ts } => Msg::CommitPrepared {
                txn: *txn,
                commit_ts: *commit_ts,
            },
            Msg::RollbackPrepared { txn } => Msg::RollbackPrepared { txn: *txn },
        }
    }
}

/// An envelope: a message addressed to a node, scheduled to arrive at a tick.
#[derive(Debug)]
pub struct Envelope {
    pub to: NodeId,
    pub deliver_at: SimTime,
    /// Monotonic sequence for deterministic tie-breaking when two envelopes are
    /// due at the same tick.
    pub seq: u64,
    pub msg: Msg,
}

/// What an [`Envelope`] says.
pub struct EnvelopeView {
    pub to: NodeId,
    pub deliver_at: nat,
    pub seq: nat,
    pub msg: MsgView,
}

impl View for Envelope {
    type V = EnvelopeView;

    open spec fn view(&self) -> EnvelopeView {
        EnvelopeView {
            to: self.to,
            deliver_at: self.deliver_at as nat,
            seq: self.seq as nat,
            msg: self.msg@,
        }
    }
}

/// Tunable fault rates. Probabilities are in units of `2^-53`.
#[derive(Clone, Copy, Debug)]
pub struct NetworkConfig {
    pub drop_prob: u64,
    pub duplicate_prob: u64,
    pub min_latency: u64,
    pub max_latency: u64,
}

impl NetworkConfig {
    /// No message takes longer than this many ticks.
    pub open spec fn latency_bound(self) -> nat {
        if self.min_latency >= self.max_latency {
            self.min_latency as nat
        } else {
            self.max_latency as nat
        }
    }
}

impl Default for NetworkConfig {
    /// Drop and duplicate one message in twenty; one to five ticks of latency.
    fn default() -> (r: Self)
        ensures
            r == (NetworkConfig {
                drop_prob: 450359962737050,
                duplicate_prob: 450359962737050,
                min_latency: 1,
                max_latency: 5,
            }),
    {
        NetworkConfig {
            drop_prob: 450359962737050,
            duplicate_prob: 450359962737050,
            min_latency: 1,
            max_latency: 5,
        }
    }
}

/// `a` is delivered strictly before `b`: earlier tick, or same tick and lower
/// sequence number.
pub open spec fn delivered_before(a: EnvelopeView, b: EnvelopeView) -> bool {
    a.deliver_at < b.deliver_at || (a.deliver_at == b.deliver_at && a.seq < b.seq)
}

/// `q` with `e` put behind the last envelope that `e` does not precede.
pub open spec fn slotted(q: Seq<EnvelopeView>, e: EnvelopeView) -> Seq<EnvelopeView>
    decreases q.len(),
{
    if q.len() == 0 || !delivered_before(e, q.last()) {
        q.push(e)
    } else {
        slotted(q.drop_last(), e).push(q.last())
    }
}

/// `q` in delivery order.
pub open spec fn in_delivery_order(q: Seq<EnvelopeView>) -> Seq<EnvelopeView>
    decreases q.len(),
{
    if q.len() == 0 {
        q
    } else {
        slotted(in_delivery_order(q.drop_last()), q.last())
    }
}

/// The members of `q` for which `keep` holds, in order.
pub open spec fn kept(q: Seq<EnvelopeView>, keep: spec_fn(EnvelopeView) -> bool) -> Seq<
    EnvelopeView,
>
    decreases q.len(),
{
    if q.len() == 0 {
        q
    } else if keep(q.last()) {
        kept(q.drop_last(), keep).push(q.last())
    } else {
        kept(q.drop_last(), keep)
    }
}

/// The state of the transport.
#[verifier::ext_equal]
pub struct NetState {
    pub config: NetworkConfig,
    pub in_flight: Seq<EnvelopeView>,
    pub isolated: Set<NodeId>,
    pub next_seq: nat,
    pub dropped: nat,
    pub duplicated: nat,
}

impl NetState {
    /// A transport with nothing in flight and nobody isolated.
    pub open spec fn fresh(config: NetworkConfig) -> NetState {
        NetState {
            config,
            in_flight: seq![],
            isolated: Set::empty(),
            next_seq: 0,
            dropped: 0,
            duplicated: 0,
        }
    }

    /// `a` and `b` are on the same side of the partition.
    pub open spec fn connected(self, a: NodeId, b: NodeId) -> bool {
        self.isolated.contains(a) == self.isolated.contains(b)
    }

    /// One more copy in flight.
    pub open spec fn enqueued(self, to: NodeId, deliver_at: nat, msg: MsgView) -> NetState {
        NetState {
            in_flight: self.in_flight.push(
                EnvelopeView { to, deliver_at, seq: self.next_seq, msg },
            ),
            next_seq: self.next_seq + 1,
            ..self
        }
    }

    /// Sending one message: a partitioned link drops it without a draw; then
    /// one trial decides a drop, one a duplicate, and each copy draws its own
    /// latency. The last component is the number of copies in flight.
    pub open spec fn send(
        self,
        rng: RngState,
        now: nat,
        from: NodeId,
        to: NodeId,
        msg: MsgView,
    ) -> (NetState, RngState, nat) {
        let lost = NetState { dropped: self.dropped + 1, ..self };
        let (drop, rng1) = rng.chance(self.config.drop_prob);
        let (twice, rng2) = rng1.chance(self.config.duplicate_prob);
        let (first, rng3) = rng2.int_in(self.config.min_latency, self.config.max_latency);
        let (second, rng4) = rng3.int_in(self.config.min_latency, self.config.max_latency);
        let once = self.enqueued(to, now + first as nat, msg);
        if from != to && !self.connected(from, to) {
            (lost, rng, 0)
        } else if drop {
            (lost, rng1, 0)
        } else if !twice {
            (once, rng3, 1)
        } else {
            (
                NetState {
                    duplicated: self.duplicated + 1,
                    ..once.enqueued(to, now + second as nat, msg)
                },
                rng4,
                2,
            )
        }
    }

    /// The counters have room for this many more sends.
    pub open spec fn room(self, sends: nat) -> bool {
        &&& self.next_seq + 2 * sends <= u64::MAX
        &&& self.dropped + sends <= u64::MAX
        &&& self.duplicated + sends <= u64::MAX
    }

    /// `e` can be delivered at `now`: its tick has come and no partition holds
    /// it back.
    pub open spec fn is_due(self, now: nat, e: EnvelopeView) -> bool {
        e.deliver_at <= now && !self.isolated.contains(e.to)
    }

    /// The envelopes that can be delivered at `now`, in delivery order.
    pub open spec fn due(self, now: nat) -> Seq<EnvelopeView> {
        in_delivery_order(kept(self.in_flight, |e: EnvelopeView| self.is_due(now, e)))
    }

    /// The transport once the due envelopes have left.
    pub open spec fn without_due(self, now: nat) -> NetState {
        NetState {
            in_flight: kept(self.in_flight, |e: EnvelopeView| !self.is_due(now, e)),
            ..self
        }
    }
}

/// Unreliable message transport.
pub struct Network {
    config: NetworkConfig,
    in_flight: Vec<Envelope>,
    /// Nodes currently isolated from the rest of the cluster. A message is only
    /// sent if sender and receiver are on the same side of the partition.
    isolated: BTreeSet<NodeId>,
    next_seq: u64,
    /// Count of messages dropped by fault injection, for reporting.
    pub dropped: u64,
    pub duplicated: u64,
}

/// What the envelopes of `q` say.
pub open spec fn envelopes_of(q: Seq<Envelope>) -> Seq<EnvelopeView> {
    q.map_values(|e: Envelope| e@)
}

impl View for Network {
    type V = NetState;

    closed spec fn view(&self) -> NetState {
        NetState {
            config: self.config,
            in_flight: envelopes_of(self.in_flight@),
            isolated: self.isolated@,
            next_seq: self.next_seq as nat,
            dropped: self.dropped as nat,
            duplicated: self.duplicated as nat,
        }
    }
}

fn before(a: &Envelope, b: &Envelope) -> (r: bool)
    ensures
        r == delivered_before(a@, b@),
{
    a.deliver_at < b.deliver_at || (a.deliver_at == b.deliver_at && a.seq < b.seq)
}

proof fn lemma_slotted_at(q: Seq<EnvelopeView>, e: EnvelopeView, i: int)
    requires
        0 <= i <= q.len(),
        forall|j: int| i <= j < q.len() ==> delivered_before(e, #[trigger] q[j]),
        i > 0 ==> !delivered_before(e, q[i - 1]),
    ensures
        slotted(q, e) == q.insert(i, e),
    decreases q.len(),
{
    if i == q.len() {
        assert(q.insert(i, e) =~= q.push(e));
    } else {
        assert(delivered_before(e, q[q.len() - 1]));
        assert forall|j: int| i <= j < q.drop_last().len() implies delivered_before(
            e,
            #[trigger] q.drop_last()[j],
        ) by {
            assert(q.drop_last()[j] == q[j]);
        }
        lemma_slotted_at(q.drop_last(), e, i);
        assert(q.insert(i, e) =~= q.drop_last().insert(i, e).push(q.last()));
    }
}

fn slot(q: &mut Vec<Envelope>, e: Envelope)
    ensures
        envelopes_of(final(q)@) == slotted(envelopes_of(old(q)@), e@),
{
    let mut i: usize = q.len();
    while i > 0 && before(&e, &q[i - 1])
        invariant
            i <= q.len(),
            forall|j: int|
                i <= j < q.len() ==> delivered_before(e@, #[trigger] envelopes_of(q@)[j]),
        decreases i,
    {
        i = i - 1;
    }
    proof {
        lemma_slotted_at(envelopes_of(q@), e@, i as int);
        assert(envelopes_of(q@.insert(i as int, e)) =~= envelopes_of(q@).insert(i as int, e@));
    }
    q.insert(i, e);
}

impl Network {
    pub fn new(config: NetworkConfig) -> (r: Self)
        ensures
            r@ == NetState::fresh(config),
    {
        let r = Network {
            config,
            in_flight: Vec::new(),
            isolated: BTreeSet::new(),
            next_seq: 0,
            dropped: 0,
            duplicated: 0,
        };
        assert(r@ =~= NetState::fresh(config));
        r
    }

    /// True if `a` and `b` can currently exchange messages: both isolated or
    /// both not.
    fn connected(&self, a: NodeId, b: NodeId) -> (r: bool)
        ensures
            r == self@.connected(a, b),
    {
        self.isolated.contains(&a) == self.isolated.contains(&b)
    }

    fn enqueue(&mut self, to: NodeId, deliver_at: SimTime, msg: Msg)
        requires
            old(self)@.next_seq < u64::MAX,
        ensures
            final(self)@ == old(self)@.enqueued(to, deliver_at as nat, msg@),
    {
        let seq: u64 = self.next_seq;
        self.next_seq = self.next_seq + 1;
        self.in_flight.push(Envelope { to, deliver_at, seq, msg });
        assert(self@.in_flight =~= old(self)@.enqueued(to, deliver_at as nat, msg@).in_flight);
    }

    /// Enqueues `msg` from `from` to `to`, applying drop, duplicate and latency
    /// faults from the seeded generator. Returns the number of copies enqueued.
    pub fn send(
        &mut self,
        rng: &mut Rng,
        now: SimTime,
        from: NodeId,
        to: NodeId,
        msg: Msg,
    ) -> (copies: usize)
        requires
            old(self)@.room(1),
            now + old(self)@.config.latency_bound() <= u64::MAX,
        ensures
            (final(self)@, final(rng)@, copies as nat) == old(self)@.send(
                old(rng)@,
                now as nat,
                from,
                to,
                msg@,
            ),
    {
        if from != to && !self.connected(from, to) {
            // Partitioned away: a silent drop until the partition heals.
            self.dropped = self.dropped + 1;
            return 0;
        }
        if rng.chance(self.config.drop_prob) {
            self.dropped = self.dropped + 1;
            return 0;
        }
        let twice: bool = rng.chance(self.config.duplicate_prob);
        let first: u64 = rng.int_in(self.config.min_latency, self.config.max_latency);
        if !twice {
            self.enqueue(to, now + first, msg);
            return 1;
        }
        self.duplicated = self.duplicated + 1;
        let copy: Msg = msg.clone();
        self.enqueue(to, now + first, copy);
        let second: u64 = rng.int_in(self.config.min_latency, self.config.max_latency);
        self.enqueue(to, now + second, msg);
        2
    }

    /// Removes and returns every envelope due at or before `now`, sorted for
    /// deterministic delivery order. Envelopes addressed to a now-isolated node
    /// are held (the partition delays them), modelling a stalled link.
    pub fn deliver_due(&mut self, now: SimTime) -> (due: Vec<Envelope>)
        ensures
            envelopes_of(due@) == old(self)@.due(now as nat),
            final(self)@ == old(self)@.without_due(now as nat),
    {
        let ghost before = self@;
        let ghost is_due = |e: EnvelopeView| before.is_due(now as nat, e);
        let ghost is_held = |e: EnvelopeView| !before.is_due(now as nat, e);
        let ghost all = self.in_flight@;
        let mut due: Vec<Envelope> = Vec::new();
        let mut held: Vec<Envelope> = Vec::new();
        let mut rest: Vec<Envelope> = Vec::new();
        std::mem::swap(&mut rest, &mut self.in_flight);
        let ghost mut i: int = 0;
        while rest.len() > 0
            invariant
                0 <= i <= all.len(),
                rest@ == all.skip(i),
                before.in_flight == envelopes_of(all),
                before.isolated == self.isolated@,
                is_due == (|e: EnvelopeView| before.is_due(now as nat, e)),
                is_held == (|e: EnvelopeView| !before.is_due(now as nat, e)),
                envelopes_of(due@) == in_delivery_order(
                    kept(before.in_flight.take(i), is_due),
                ),
                envelopes_of(held@) == kept(before.in_flight.take(i), is_held),
            decreases rest.len(),
        {
            let env: Envelope = rest.remove(0);
            proof {
                assert(before.in_flight.take(i + 1).drop_last() =~= before.in_flight.take(i));
                assert(before.in_flight.take(i + 1).last() == env@);
                assert(all.skip(i).remove(0) =~= all.skip(i + 1));
            }
            if env.deliver_at <= now && !self.isolated.contains(&env.to) {
                proof {
                    assert(is_due(env@));
                    assert(!is_held(env@));
                    let k = kept(before.in_flight.take(i), is_due);
                    assert(k.push(env@).drop_last() =~= k);
                }
                slot(&mut due, env);
            } else {
                proof {
                    assert(!is_due(env@));
                    assert(is_held(env@));
                    assert(envelopes_of(held@.push(env)) =~= envelopes_of(held@).push(env@));
                }
                held.push(env);
            }
            proof {
                i = i + 1;
            }
        }
        proof {
            assert(i == all.len());
            assert(before.in_flight.take(i) =~= before.in_flight);
        }
        self.in_flight = held;
        assert(self@ =~= before.without_due(now as nat));
        due
    }

    /// Cuts `node` off from every node that is not isolated.
    pub fn isolate(&mut self, node: NodeId)
        ensures
            final(self)@ == (NetState {
                isolated: old(self)@.isolated.insert(node),
                ..old(self)@
            }),
    {
        self.isolated.insert(node);
    }

    /// Reconnects `node`.
    pub fn heal(&mut self, node: NodeId)
        ensures
            final(self)@ == (NetState {
                isolated: old(self)@.isolated.remove(node),
                ..old(self)@
            }),
    {
        self.isolated.remove(&node);
    }

    /// Reconnects every node.
    pub fn heal_all(&mut self)
        ensures
            final(self)@ == (NetState { isolated: Set::empty(), ..old(self)@ }),
    {
        self.isolated.clear();
    }

    pub fn is_isolated(&self, node: NodeId) -> (r: bool)
        ensures
            r == self@.isolated.contains(node),
    {
        self.isolated.contains(&node)
    }

    /// The counts of dropped and of duplicated messages.
    pub(crate) fn counts(&self) -> (r: (u64, u64))
        ensures
            r.0 == self@.dropped,
            r.1 == self@.duplicated,
    {
        (self.dropped, self.duplicated)
    }

    pub fn in_flight_len(&self) -> (r: usize)
        ensures
            r == self@.in_flight.len(),
    {
        self.in_flight.len()
    }
}

/// `q` is in delivery order.
pub open spec fn ordered_for_delivery(q: Seq<EnvelopeView>) -> bool {
    forall|i: int, j: int|
        0 <= i < j < q.len() ==> !delivered_before(#[trigger] q[j], #[trigger] q[i])
}

proof fn lemma_slotted_ordered(q: Seq<EnvelopeView>, e: EnvelopeView)
    requires
        ordered_for_delivery(q),
    ensures
        ordered_for_delivery(slotted(q, e)),
        slotted(q, e).to_multiset() == q.to_multiset().insert(e),
        forall|i: int|
            0 <= i < slotted(q, e).len() ==> #[trigger] slotted(q, e)[i] == e || q.contains(
                slotted(q, e)[i],
            ),
    decreases q.len(),
{
    broadcast use vstd::seq_lib::group_to_multiset_ensures;

    let r = slotted(q, e);
    if q.len() == 0 || !delivered_before(e, q.last()) {
        assert forall|i: int, j: int| 0 <= i < j < r.len() implies !delivered_before(
            #[trigger] r[j],
            #[trigger] r[i],
        ) by {
            if j < q.len() {
                assert(!delivered_before(q[j], q[i]));
            } else if i < q.len() - 1 {
                assert(!delivered_before(q[q.len() - 1], q[i]));
            }
        }
        assert forall|i: int| 0 <= i < r.len() implies #[trigger] r[i] == e || q.contains(r[i]) by {
            if i < q.len() {
                assert(q[i] == r[i]);
            }
        }
    } else {
        let d = q.drop_last();
        assert(ordered_for_delivery(d)) by {
            assert forall|i: int, j: int| 0 <= i < j < d.len() implies !delivered_before(
                #[trigger] d[j],
                #[trigger] d[i],
            ) by {
                assert(!delivered_before(q[j], q[i]));
            }
        }
        lemma_slotted_ordered(d, e);
        let s = slotted(d, e);
        assert forall|i: int| 0 <= i < r.len() implies #[trigger] r[i] == e || q.contains(r[i]) by {
            if i < s.len() {
                assert(r[i] == s[i]);
                if s[i] != e {
                    let m = choose|m: int| 0 <= m < d.len() && d[m] == s[i];
                    assert(q[m] == r[i]);
                }
            } else {
                assert(q[q.len() - 1] == r[i]);
            }
        }
        assert forall|i: int, j: int| 0 <= i < j < r.len() implies !delivered_before(
            #[trigger] r[j],
            #[trigger] r[i],
        ) by {
            if j < s.len() {
                assert(!delivered_before(s[j], s[i]));
            } else {
                assert(r[i] == s[i]);
                if s[i] != e {
                    let m = choose|m: int| 0 <= m < d.len() && d[m] == s[i];
                    assert(!delivered_before(q[q.len() - 1], q[m]));
                }
            }
        }
        assert(q =~= d.push(q.last()));
        assert(q.to_multiset() =~= d.to_multiset().insert(q.last()));
        assert(r.to_multiset() =~= q.to_multiset().insert(e));
    }
}

proof fn lemma_in_delivery_order(q: Seq<EnvelopeView>)
    ensures
        ordered_for_delivery(in_delivery_order(q)),
        in_delivery_order(q).to_multiset() == q.to_multiset(),
    decreases q.len(),
{
    broadcast use vstd::seq_lib::group_to_multiset_ensures;

    if q.len() > 0 {
        lemma_in_delivery_order(q.drop_last());
        lemma_slotted_ordered(in_delivery_order(q.drop_last()), q.last());
        assert(q =~= q.drop_last().push(q.last()));
    }
}

proof fn lemma_kept_split(
    q: Seq<EnvelopeView>,
    keep: spec_fn(EnvelopeView) -> bool,
    drop: spec_fn(EnvelopeView) -> bool,
)
    requires
        forall|e: EnvelopeView| #[trigger] keep(e) == !drop(e),
    ensures
        kept(q, keep).to_multiset().add(kept(q, drop).to_multiset()) == q.to_multiset(),
    decreases q.len(),
{
    broadcast use vstd::seq_lib::group_to_multiset_ensures;

    if q.len() > 0 {
        let d = q.drop_last();
        lemma_kept_split(d, keep, drop);
        assert(keep(q.last()) == !drop(q.last()));
        assert(q =~= d.push(q.last()));
        assert(kept(q, keep).to_multiset().add(kept(q, drop).to_multiset())
            =~= d.to_multiset().insert(q.last()));
    } else {
        assert(kept(q, keep).to_multiset().add(kept(q, drop).to_multiset()) =~= q.to_multiset());
    }
}

/// What is due at a tick comes out in delivery order: by tick, and by age
/// within a tick.
pub proof fn due_envelopes_are_ordered(net: NetState, now: nat)
    ensures
        ordered_for_delivery(net.due(now)),
{
    lemma_in_delivery_order(kept(net.in_flight, |e: EnvelopeView| net.is_due(now, e)));
}

/// Taking the due envelopes out loses none and invents none.
pub proof fn delivery_conserves_envelopes(net: NetState, now: nat)
    ensures
        net.due(now).to_multiset().add(net.without_due(now).in_flight.to_multiset())
            == net.in_flight.to_multiset(),
{
    let is_due = |e: EnvelopeView| net.is_due(now, e);
    let is_held = |e: EnvelopeView| !net.is_due(now, e);
    lemma_in_delivery_order(kept(net.in_flight, is_due));
    lemma_kept_split(net.in_flight, is_due, is_held);
}

/// A cut link delivers nothing: a message between the two sides of a partition
/// is counted as dropped and leaves the transport otherwise as it was.
pub proof fn partition_drops_messages(
    net: NetState,
    rng: RngState,
    now: nat,
    from: NodeId,
    to: NodeId,
    msg: MsgView,
)
    requires
        from != to,
        !net.connected(from, to),
    ensures
        net.send(rng, now, from, to, msg) == (
            NetState { dropped: net.dropped + 1, ..net },
            rng,
            0nat,
        ),
{
}

/// A message that is not lost is under way to whom it was sent, once or twice, due
/// after the latency it drew, behind all that was under way before; one that is lost
/// is counted and leaves nothing.
pub proof fn messages_are_under_way_to_whom_they_were_sent(
    net: NetState,
    rng: RngState,
    now: nat,
    from: NodeId,
    to: NodeId,
    msg: MsgView,
)
    ensures
        ({
            let (after, _, copies) = net.send(rng, now, from, to, msg);
            let n = net.in_flight.len() as int;
            let lo = net.config.min_latency;
            let hi = net.config.max_latency;
            &&& copies <= 2
            &&& after.in_flight.len() == n + copies
            &&& after.in_flight.take(n) == net.in_flight
            &&& after.next_seq == net.next_seq + copies
            &&& after.config == net.config
            &&& after.isolated == net.isolated
            &&& after.dropped == if copies == 0 {
                net.dropped + 1
            } else {
                net.dropped
            }
            &&& after.duplicated == if copies == 2 {
                net.duplicated + 1
            } else {
                net.duplicated
            }
            &&& forall|k: int|
                n <= k < n + copies ==> {
                    let e = #[trigger] after.in_flight[k];
                    &&& e.to == to
                    &&& e.msg == msg
                    &&& e.seq == net.next_seq + (k - n)
                    &&& lo <= hi ==> now + lo <= e.deliver_at <= now + hi
                    &&& lo > hi ==> e.deliver_at == now + lo
                }
        }),
{
    let (after, _, copies) = net.send(rng, now, from, to, msg);
    assert(after.in_flight.take(net.in_flight.len() as int) =~= net.in_flight);
}

/// Whether a message gets through is decided by the likelihoods alone: where nothing
/// is ever lost or doubled it gets through once, unless a partition lies between.
pub proof fn reliable_networks_deliver_once(
    net: NetState,
    rng: RngState,
    now: nat,
    from: NodeId,
    to: NodeId,
    msg: MsgView,
)
    requires
        net.config.drop_prob == 0,
        net.config.duplicate_prob == 0,
        from == to || net.isolated.contains(from) == net.isolated.contains(to),
    ensures
        net.send(rng, now, from, to, msg).2 == 1,
{
}

proof fn lemma_kept(q: Seq<EnvelopeView>, keep: spec_fn(EnvelopeView) -> bool, e: EnvelopeView)
    ensures
        kept(q, keep).contains(e) <==> q.contains(e) && keep(e),
    decreases q.len(),
{
    if q.len() > 0 {
        let front = q.drop_last();
        let n = q.len() - 1;
        let rest = kept(front, keep);
        let all = kept(q, keep);
        lemma_kept(front, keep, e);
        assert(q[n] == q.last());
        if front.contains(e) {
            let k = choose|k: int| 0 <= k < front.len() && front[k] == e;
            assert(q[k] == e);
        }
        if q.contains(e) && !front.contains(e) {
            let k = choose|k: int| 0 <= k < q.len() && q[k] == e;
            if k < n {
                assert(front[k] == e);
            }
        }
        if rest.contains(e) {
            let k = choose|k: int| 0 <= k < rest.len() && rest[k] == e;
            assert(all[k] == e);
        }
        if all.contains(e) && !rest.contains(e) {
            let k = choose|k: int| 0 <= k < all.len() && all[k] == e;
            if k < rest.len() {
                assert(rest[k] == e);
            }
        }
        if keep(q[n]) {
            assert(all[rest.len() as int] == q[n]);
        }
    }
}

/// A message stays under way exactly where it is not due yet or its receiver is cut
/// off, and nothing else about the network changes.
pub proof fn messages_wait_until_they_are_due(net: NetState, now: nat, e: EnvelopeView)
    ensures
        net.without_due(now).in_flight.contains(e) <==> net.in_flight.contains(e) && (e.deliver_at
            > now || net.isolated.contains(e.to)),
        net.without_due(now) == (NetState {
            in_flight: net.without_due(now).in_flight,
            ..net
        }),
{
    lemma_kept(net.in_flight, |e: EnvelopeView| !net.is_due(now, e), e);
}

/// Messages that are due come by when they were due, and then in the order in which
/// they were sent.
pub proof fn messages_come_when_they_are_due(net: NetState, now: nat, i: int, j: int)
    requires
        0 <= i < j < net.due(now).len(),
    ensures
        net.due(now)[i].deliver_at <= net.due(now)[j].deliver_at,
        net.due(now)[i].deliver_at == net.due(now)[j].deliver_at ==> net.due(now)[i].seq <= net.due(
            now,
        )[j].seq,
{
    due_envelopes_are_ordered(net, now);
}

/// Two nodes reach each other exactly where both are cut off or neither is.
pub proof fn partitions_separate_nodes(net: NetState, a: NodeId, b: NodeId)
    ensures
        net.connected(a, b) <==> (net.isolated.contains(a) <==> net.isolated.contains(b)),
        NetState::fresh(net.config).in_flight.len() == 0,
        !NetState::fresh(net.config).isolated.contains(a),
        NetState::fresh(net.config).config == net.config,
        NetState::fresh(net.config).dropped == 0 && NetState::fresh(net.config).duplicated == 0,
{
}

} // verus!
