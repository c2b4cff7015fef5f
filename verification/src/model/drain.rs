//! Delivery of a batch of messages, and draining to quiescence.
use crate::model;
use crate::model::state::{ClusterState, World, QUIESCE_TICKS};
use crate::model::world;
use crate::model::Cluster;
use crate::network;
use crate::network::{Envelope, Network};
use crate::rng::Rng;
use crate::types::SimTime;
use vstd::prelude::*;

verus! {

broadcast use {vstd::std_specs::btree::group_btree_axioms, vstd::laws_cmp::group_laws_cmp};

impl World {
    /// The counters are far enough from their machine limits for one more
    /// timestamp, and the clock for `ticks` more ticks.
    pub open spec fn has_room(self, ticks: nat) -> bool {
        &&& 16 * self.cluster.tso_next + 16 <= u64::MAX
        &&& self.cluster.now + ticks + self.net.config.latency_bound() <= u64::MAX
    }
}

/// The invariant leaves room for the sends of one tick's timeouts.
pub proof fn lemma_expired_room(w: World)
    requires
        w.inv(seq![]),
        16 * w.cluster.tso_next <= u64::MAX,
    ensures
        w.net.room(2 * w.cluster.expired(w.cluster.num_partitions as nat).len()),
{
    let c = w.cluster;
    let list = c.expired(c.num_partitions as nat);
    world::lemma_expired(c, c.num_partitions as nat);
    let held = Seq::new(
        list.len(),
        |a: int| c.nodes[list[a].0 as int].coordinating[list[a].1].prepare_ts,
    );
    assert forall|a: int| 0 <= a < list.len() implies c.pending_prepares.dom().contains(
        #[trigger] held[a],
    ) by {
        assert(c.is_late(list[a].0 as int, list[a].1));
        assert(c.nodes[list[a].0 as int].undecided(list[a].1));
    }
    assert(held.no_duplicates()) by {
        assert forall|a: int, b: int|
            0 <= a < held.len() && 0 <= b < held.len() && a != b implies held[a] != held[b] by {
            assert(c.is_late(list[a].0 as int, list[a].1));
            assert(c.is_late(list[b].0 as int, list[b].1));
            assert(c.nodes[list[a].0 as int].undecided(list[a].1));
            assert(c.nodes[list[b].0 as int].undecided(list[b].1));
            if a < b {
                assert(list[a] != list[b]);
            } else {
                assert(list[b] != list[a]);
            }
        }
    }
    held.unique_seq_to_set();
    assert(held.to_set().subset_of(c.pending_prepares.dom()));
    vstd::set_lib::lemma_len_subset(held.to_set(), c.pending_prepares.dom());
}

impl ClusterState {
    /// Number of prepared slices on the first `m` nodes.
    pub open spec fn prepared_total(self, m: nat) -> nat
        decreases m,
    {
        if m == 0 {
            0
        } else {
            self.prepared_total((m - 1) as nat) + self.nodes[m - 1].prepared.dom().len()
        }
    }
}

proof fn lemma_prepared_grows(c: ClusterState, a: nat, b: nat)
    requires
        a <= b,
    ensures
        c.prepared_total(a) <= c.prepared_total(b),
    decreases b,
{
    if a < b {
        lemma_prepared_grows(c, a, (b - 1) as nat);
    }
}

impl Cluster {
    /// Delivers `due` in order.
    pub(crate) fn deliver_all(&mut self, rng: &mut Rng, network: &mut Network, due: Vec<Envelope>)
        requires
            (World { cluster: old(self)@, net: old(network)@, rng: old(rng)@ }).inv(
                network::envelopes_of(due@),
            ),
            (World { cluster: old(self)@, net: old(network)@, rng: old(rng)@ }).has_room(0),
        ensures
            (World { cluster: final(self)@, net: final(network)@, rng: final(rng)@ }) == (World {
                cluster: old(self)@,
                net: old(network)@,
                rng: old(rng)@,
            }).all_delivered(network::envelopes_of(due@)),
    {
        let ghost w = World { cluster: self@, net: network@, rng: rng@ };
        let ghost q = network::envelopes_of(due@);
        let ghost all = due@;
        let ghost mut i: int = 0;
        let mut rest: Vec<Envelope> = due;
        proof {
            assert(q.take(0) =~= seq![]);
            assert(all.skip(0) =~= all);
        }
        while rest.len() > 0
            invariant
                0 <= i <= all.len(),
                rest@ == all.skip(i),
                q == network::envelopes_of(all),
                w.inv(q),
                w.has_room(0),
                (World { cluster: self@, net: network@, rng: rng@ }) == w.all_delivered(q.take(i)),
            decreases rest.len(),
        {
            let ghost mid = World { cluster: self@, net: network@, rng: rng@ };
            proof {
                world::lemma_all_delivered(w, q, i as nat);
                assert(mid.inv(q.skip(i)));
                assert(q.skip(i)[0] == rest@[0]@);
                assert(mid.cluster.expects(q.skip(i)[0]));
                assert(all.skip(i).remove(0) =~= all.skip(i + 1));
                assert(q.take(i + 1).drop_last() =~= q.take(i));
                assert(q.take(i + 1).last() == rest@[0]@);
            }
            let env: Envelope = rest.remove(0);
            self.deliver(rng, network, env.to, env.msg);
            proof {
                i = i + 1;
            }
        }
        assert(q.take(i) =~= q);
    }

    /// The number of committed transactions and the event trace.
    pub(crate) fn into_outcome(self) -> (r: (usize, Vec<String>))
        ensures
            r.0 == self@.history.len(),
            model::texts_of(r.1@) == self@.trace,
    {
        (self.history.len(), self.trace)
    }

    /// Whether no node holds a prepared slice.
    fn none_prepared(&self) -> (r: bool)
        ensures
            r == self@.nothing_prepared(),
    {
        let mut i: usize = 0;
        while i < self.nodes.len()
            invariant
                i <= self.nodes.len(),
                self@.nodes.len() == self.nodes.len(),
                forall|a: int|
                    0 <= a < i ==> (#[trigger] self@.nodes[a]).prepared.dom().is_empty(),
            decreases self.nodes.len() - i,
        {
            assert(self@.nodes[i as int] == self.nodes@[i as int]@);
            let empty: bool = self.nodes[i].prepared.is_empty();
            assert(self@.nodes[i as int].prepared.dom() =~= self.nodes@[i as int].prepared@.dom());
            if !empty {
                assert(!self@.nodes[i as int].prepared.dom().is_empty());
                return false;
            }
            i = i + 1;
        }
        true
    }

    /// Number of prepared slices on all nodes together.
    pub fn prepared_count(&self) -> (r: usize)
        requires
            self@.staffed(),
            self@.prepared_total(self@.num_partitions as nat) <= usize::MAX,
        ensures
            r == self@.prepared_total(self@.num_partitions as nat),
    {
        let mut total: usize = 0;
        let mut i: usize = 0;
        while i < self.nodes.len()
            invariant
                i <= self.nodes.len(),
                self@.staffed(),
                self@.nodes.len() == self.nodes.len(),
                self@.prepared_total(self@.num_partitions as nat) <= usize::MAX,
                total == self@.prepared_total(i as nat),
            decreases self.nodes.len() - i,
        {
            proof {
                assert(self@.nodes[i as int] == self.nodes@[i as int]@);
                assert(self@.nodes[i as int].prepared.dom()
                    =~= self.nodes@[i as int].prepared@.dom());
                lemma_prepared_grows(self@, (i + 1) as nat, self@.num_partitions as nat);
            }
            total = total + self.nodes[i].prepared.len();
            i = i + 1;
        }
        total
    }

    /// Whether every node has consumed the whole log.
    fn all_caught_up(&self) -> (r: bool)
        ensures
            r == self@.caught_up(),
    {
        let mut i: usize = 0;
        while i < self.nodes.len()
            invariant
                i <= self.nodes.len(),
                self@.nodes.len() == self.nodes.len(),
                self@.commit_log.len() == self.commit_log.len(),
                forall|a: int|
                    0 <= a < i ==> (#[trigger] self@.nodes[a]).cursor == self@.commit_log.len(),
            decreases self.nodes.len() - i,
        {
            assert(self@.nodes[i as int] == self.nodes@[i as int]@);
            if self.nodes[i].repl_cursor != self.commit_log.len() {
                return false;
            }
            i = i + 1;
        }
        true
    }

    /// Drains the simulation to a quiescent state: heals the network, restarts
    /// all nodes, and runs delivery, watchers and replication until nothing is
    /// in flight, no prepared transaction remains and every replica is current,
    /// for a bounded number of ticks at most.
    pub fn quiesce(&mut self, rng: &mut Rng, network: &mut Network)
        requires
            (World { cluster: old(self)@, net: old(network)@, rng: old(rng)@ }).inv(seq![]),
            (World { cluster: old(self)@, net: old(network)@, rng: old(rng)@ }).has_room(
                QUIESCE_TICKS as nat,
            ),
        ensures
            (World { cluster: final(self)@, net: final(network)@, rng: final(rng)@ }) == (World {
                cluster: old(self)@,
                net: old(network)@,
                rng: old(rng)@,
            }).quiesced(),
            final(self)@.nothing_prepared(),
            final(self)@.caught_up(),
            final(self)@.inv(),
    {
        let ghost w0 = World { cluster: self@, net: network@, rng: rng@ };
        network.heal_all();
        let n: u32 = self.num_partitions;
        let mut node: u32 = 0;
        while node < n
            invariant
                node <= n,
                n == w0.cluster.num_partitions,
                w0.inv(seq![]),
                self@ == w0.cluster.restarted_all(node as nat),
                self@.num_partitions == n,
                self@.shaped(),
            decreases n - node,
        {
            proof {
                world::lemma_restarted_all(w0, (node + 1) as nat);
            }
            self.restart(node);
            node = node + 1;
        }
        let ghost w1 = World { cluster: self@, net: network@, rng: rng@ };
        let ghost t0 = w0.cluster.now;
        proof {
            world::lemma_quiesce_begun(w0, w1);
            world::lemma_quiesced(w0);
        }
        let mut left: u64 = QUIESCE_TICKS;
        while left > 0
            invariant_except_break
                (World { cluster: self@, net: network@, rng: rng@ }).inv(seq![]),
                (World { cluster: self@, net: network@, rng: rng@ }).winding_down(t0),
                (World { cluster: self@, net: network@, rng: rng@ }).has_room(left as nat),
                (World { cluster: self@, net: network@, rng: rng@ }).drained(left as nat)
                    == w0.quiesced(),
            ensures
                (World { cluster: self@, net: network@, rng: rng@ }) == w0.quiesced(),
            decreases left,
        {
            let ghost w = World { cluster: self@, net: network@, rng: rng@ };
            let now: SimTime = self.now + 1;
            self.set_now(now);
            let due: Vec<Envelope> = network.deliver_due(now);
            proof {
                world::lemma_tick_begun(w, now);
                world::lemma_ticked(w, now);
            }
            self.deliver_all(rng, network, due);
            let ghost ticked = World { cluster: self@, net: network@, rng: rng@ };
            assert(ticked == w.ticked(now));
            proof {
                lemma_expired_room(ticked);
                world::lemma_watched(ticked);
            }
            self.run_watchers(rng, network);
            self.replicate_tick(network);
            proof {
                world::lemma_drained_once(w, t0);
            }
            let ghost r = World { cluster: self@, net: network@, rng: rng@ };
            assert(r == w.drained_once());
            let prepared: bool = !self.none_prepared();
            let current: bool = self.all_caught_up();
            if network.in_flight_len() == 0 && !prepared && current {
                assert(r.is_quiet());
                break;
            }
            assert(!r.is_quiet());
            left = left - 1;
        }
    }
}

} // verus!
