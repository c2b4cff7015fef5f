//! Deterministic simulation of the distributed transaction layer.
//!
//! A commit, replication, two-phase-commit and placement system can pass its
//! integration tests and still be wrong under a rare interleaving of delays,
//! drops, crashes, restarts and partitions. This is a self-contained,
//! deterministic simulator for that failure space.
//!
//! A run is fully determined by its seed: the same seed replays the same
//! schedule of operations and faults. On a violation, [`SimReport`] carries the
//! seed and the event trace needed to reproduce it. [`run`] proves that there
//! is never one.
use crate::model;
use crate::model::drain;
use crate::model::invariants;
use crate::model::state::{ClusterState, World, QUIESCE_TICKS};
use crate::model::world;
use crate::model::Cluster;
use crate::network::{Envelope, NetState, Network, NetworkConfig};
use crate::rng::{Rng, RngState};
use crate::text;
use crate::types::{NodeId, SimTime};
use vstd::prelude::*;
use vstd::string::*;

verus! {

/// One in two, in units of `2^-53`.
pub const EVEN_ODDS: u64 = 4503599627370496;

/// Knobs for a simulation run. All probabilities are per step, in units of
/// `2^-53`.
#[derive(Clone, Copy, Debug)]
pub struct SimConfig {
    pub num_partitions: u32,
    pub steps: u64,
    pub network: NetworkConfig,
    pub txns_per_step: u64,
    pub crash_prob: u64,
    pub restart_prob: u64,
    pub partition_prob: u64,
    pub heal_prob: u64,
    pub placement_bump_prob: u64,
    pub subscribe_prob: u64,
}

impl SimConfig {
    /// The run stays within the machine's integers: four keys per partition,
    /// one timestamp per transaction, one tick per step.
    pub open spec fn fits(self) -> bool {
        &&& self.num_partitions > 0
        &&& self.num_partitions * 4 <= u32::MAX
        &&& 16 * (1 + self.steps * self.txns_per_step) + 16 <= u64::MAX
        &&& self.steps + QUIESCE_TICKS + self.network.latency_bound() <= u64::MAX
    }

    /// A small, fast configuration suitable for a per-commit suite: crashes and
    /// partitions in 2 % of the steps, restarts in 10 %, healing in 15 %,
    /// placement changes in 1 %, subscriptions in 5 %.
    pub fn fast() -> (r: Self)
        ensures
            r.fits(),
            r == (SimConfig {
                num_partitions: 3,
                steps: 400,
                network: r.network,
                txns_per_step: 2,
                crash_prob: 180143985094820,
                restart_prob: 900719925474100,
                partition_prob: 180143985094820,
                heal_prob: 1351079888211149,
                placement_bump_prob: 90071992547410,
                subscribe_prob: 450359962737050,
            }),
            r.network == (NetworkConfig {
                drop_prob: 450359962737050,
                duplicate_prob: 450359962737050,
                min_latency: 1,
                max_latency: 5,
            }),
    {
        SimConfig {
            num_partitions: 3,
            steps: 400,
            network: NetworkConfig::default(),
            txns_per_step: 2,
            crash_prob: 180143985094820,
            restart_prob: 900719925474100,
            partition_prob: 180143985094820,
            heal_prob: 1351079888211149,
            placement_bump_prob: 90071992547410,
            subscribe_prob: 450359962737050,
        }
    }

    /// A larger, more adversarial configuration: 15 % drops, 10 % duplicates,
    /// up to twelve ticks of latency, crashes and partitions in 5 % of the
    /// steps, restarts in 8 %, healing in 10 %, placement changes in 3 %,
    /// subscriptions in 5 %.
    pub fn stress() -> (r: Self)
        ensures
            r.fits(),
            r == (SimConfig {
                num_partitions: 5,
                steps: 4000,
                network: (NetworkConfig {
                    drop_prob: 1351079888211149,
                    duplicate_prob: 900719925474100,
                    min_latency: 1,
                    max_latency: 12,
                }),
                txns_per_step: 3,
                crash_prob: 450359962737050,
                restart_prob: 720575940379280,
                partition_prob: 450359962737050,
                heal_prob: 900719925474100,
                placement_bump_prob: 270215977642230,
                subscribe_prob: 450359962737050,
            }),
    {
        SimConfig {
            num_partitions: 5,
            steps: 4000,
            network: NetworkConfig {
                drop_prob: 1351079888211149,
                duplicate_prob: 900719925474100,
                min_latency: 1,
                max_latency: 12,
            },
            txns_per_step: 3,
            crash_prob: 450359962737050,
            restart_prob: 720575940379280,
            partition_prob: 450359962737050,
            heal_prob: 900719925474100,
            placement_bump_prob: 270215977642230,
            subscribe_prob: 450359962737050,
        }
    }
}

/// The nodes below `m` that are up, ascending.
pub open spec fn up_nodes(c: ClusterState, m: nat) -> Seq<NodeId>
    decreases m,
{
    if m == 0 {
        seq![]
    } else if c.nodes[m - 1].up {
        up_nodes(c, (m - 1) as nat).push((m - 1) as NodeId)
    } else {
        up_nodes(c, (m - 1) as nat)
    }
}

/// A random node among those that are up; no draw when none is.
pub open spec fn drawn_up_node(c: ClusterState, rng: RngState) -> (Option<NodeId>, RngState) {
    let up = up_nodes(c, c.num_partitions as nat);
    let (i, r) = rng.index(up.len() as usize);
    if up.len() == 0 {
        (None, rng)
    } else {
        (Some(up[i as int]), r)
    }
}

/// A random node, up or down.
pub open spec fn drawn_node(c: ClusterState, rng: RngState) -> (NodeId, RngState) {
    let (n, r) = rng.int_in(0, (c.num_partitions - 1) as u64);
    (n as NodeId, r)
}

/// The nodes below `m` but for the stale one, ascending.
pub open spec fn rolled_to(m: nat, stale: Option<NodeId>) -> Seq<NodeId>
    decreases m,
{
    if m == 0 {
        seq![]
    } else if stale == Some((m - 1) as NodeId) {
        rolled_to((m - 1) as nat, stale)
    } else {
        rolled_to((m - 1) as nat, stale).push((m - 1) as NodeId)
    }
}

impl World {
    /// A world before its first step.
    pub open spec fn fresh(seed: u64, config: SimConfig) -> World {
        World {
            cluster: ClusterState::fresh(config.num_partitions),
            net: NetState::fresh(config.network),
            rng: RngState::fresh(seed),
        }
    }

    /// A random node among those that are up.
    pub open spec fn up_node_drawn(self) -> (Option<NodeId>, World) {
        let (node, r) = drawn_up_node(self.cluster, self.rng);
        (node, World { rng: r, ..self })
    }

    /// A random node, up or down.
    pub open spec fn node_drawn(self) -> (NodeId, World) {
        let (node, r) = drawn_node(self.cluster, self.rng);
        (node, World { rng: r, ..self })
    }

    /// Outcome of a trial.
    pub open spec fn tried(self, p: u64) -> (bool, World) {
        let (hit, r) = self.rng.chance(p);
        (hit, World { rng: r, ..self })
    }

    pub open spec fn crash_tried(self, p: u64) -> World {
        let (hit, w) = self.tried(p);
        let (node, w1) = w.node_drawn();
        if hit {
            w1.on(w1.cluster.crashed(node))
        } else {
            w
        }
    }

    pub open spec fn restart_tried(self, p: u64) -> World {
        let (hit, w) = self.tried(p);
        let (node, w1) = w.node_drawn();
        if hit {
            w1.on(w1.cluster.restarted(node))
        } else {
            w
        }
    }

    pub open spec fn partition_tried(self, p: u64) -> World {
        let (hit, w) = self.tried(p);
        let (node, w1) = w.node_drawn();
        if hit {
            World {
                net: NetState { isolated: w1.net.isolated.insert(node), ..w1.net },
                ..w1
            }
        } else {
            w
        }
    }

    pub open spec fn heal_tried(self, p: u64) -> World {
        let (hit, w) = self.tried(p);
        if hit {
            World { net: NetState { isolated: Set::empty(), ..w.net }, ..w }
        } else {
            w
        }
    }

    /// A placement change usually reaches every node; one time in two, with
    /// more than one node, it leaves one node stale.
    pub open spec fn bump_tried(self, p: u64) -> World {
        let (hit, w) = self.tried(p);
        let (partial, w1) = w.tried(EVEN_ODDS);
        let (node, w2) = w1.node_drawn();
        let n = self.cluster.num_partitions;
        if !hit {
            w
        } else if partial && n > 1 {
            w2.on(w2.cluster.placement_bumped(rolled_to(n as nat, Some(node))))
        } else {
            w1.on(w1.cluster.placement_bumped(rolled_to(n as nat, None)))
        }
    }

    /// The faults of one step: crash, restart, partition, heal, placement
    /// change, each with its own probability.
    pub open spec fn faulted(self, config: SimConfig) -> World {
        self.crash_tried(config.crash_prob).restart_tried(config.restart_prob).partition_tried(
            config.partition_prob,
        ).heal_tried(config.heal_prob).bump_tried(config.placement_bump_prob)
    }

    /// A subscription on a random node that is up.
    pub open spec fn subscription_tried(self, p: u64) -> World {
        let (hit, w) = self.tried(p);
        let (node, w1) = w.up_node_drawn();
        if !hit {
            w
        } else {
            match node {
                Some(n) => w1.subscription_added(n),
                None => w1,
            }
        }
    }

    /// `m` transaction attempts, each from a random node that is up.
    pub open spec fn transacted_times(self, m: nat) -> World
        decreases m,
    {
        if m == 0 {
            self
        } else {
            let (node, w) = self.transacted_times((m - 1) as nat).up_node_drawn();
            match node {
                Some(n) => w.transacted(n),
                None => w,
            }
        }
    }

    /// One step: delivery, faults, background processes, client activity,
    /// replication.
    pub open spec fn stepped(self, config: SimConfig, step: SimTime) -> World {
        self.ticked(step).faulted(config).watched().subscription_tried(
            config.subscribe_prob,
        ).transacted_times(config.txns_per_step as nat).synced()
    }

    /// The first `n` steps.
    pub open spec fn after_steps(self, config: SimConfig, n: nat) -> World
        decreases n,
    {
        if n == 0 {
            self
        } else {
            self.after_steps(config, (n - 1) as nat).stepped(config, n as SimTime)
        }
    }
}

/// The world at the end of the run with `seed`.
pub open spec fn end_of_run(seed: u64, config: SimConfig) -> World {
    World::fresh(seed, config).after_steps(config, config.steps as nat).quiesced()
}

/// Every listed node is a node of the cluster that is up.
proof fn lemma_up_nodes(c: ClusterState, m: nat)
    requires
        m <= c.num_partitions,
    ensures
        up_nodes(c, m).len() <= m,
        forall|i: int|
            0 <= i < up_nodes(c, m).len() ==> #[trigger] up_nodes(c, m)[i] < c.num_partitions,
    decreases m,
{
    if m > 0 {
        lemma_up_nodes(c, (m - 1) as nat);
        let p = up_nodes(c, (m - 1) as nat);
        assert forall|i: int| 0 <= i < up_nodes(c, m).len() implies #[trigger] up_nodes(c, m)[i]
            < c.num_partitions by {
            if i < p.len() {
                assert(up_nodes(c, m)[i] == p[i]);
            }
        }
    }
}

proof fn lemma_rolled_to(m: nat, n: u32, stale: Option<NodeId>)
    requires
        m <= n,
    ensures
        forall|i: int|
            0 <= i < rolled_to(m, stale).len() ==> #[trigger] rolled_to(m, stale)[i] < n,
    decreases m,
{
    if m > 0 {
        lemma_rolled_to((m - 1) as nat, n, stale);
        let p = rolled_to((m - 1) as nat, stale);
        assert forall|i: int| 0 <= i < rolled_to(m, stale).len() implies #[trigger] rolled_to(
            m,
            stale,
        )[i] < n by {
            if i < p.len() {
                assert(rolled_to(m, stale)[i] == p[i]);
            }
        }
    }
}

impl World {
    /// The invariant between two phases of a step, `txns` timestamps and
    /// `bumps` placement versions into the run.
    pub open spec fn on_course(
        self,
        config: SimConfig,
        now: nat,
        txns: nat,
        bumps: nat,
    ) -> bool {
        &&& self.inv(seq![])
        &&& self.cluster.num_partitions == config.num_partitions
        &&& self.net.config == config.network
        &&& self.cluster.now == now
        &&& self.cluster.tso_next <= 1 + txns
        &&& self.cluster.placement_version <= bumps
    }
}

/// The faults of a step keep the run on course.
pub proof fn lemma_faulted(w: World, config: SimConfig, now: nat, txns: nat, bumps: nat)
    requires
        w.on_course(config, now, txns, bumps),
        bumps < u64::MAX,
    ensures
        w.faulted(config).on_course(config, now, txns, bumps + 1),
{
    let (_, t1) = w.tried(config.crash_prob);
    let (n1, u1) = t1.node_drawn();
    world::lemma_crash(u1, n1);
    crate::model::preservation::lemma_crashed(u1.cluster, n1);
    let w1 = w.crash_tried(config.crash_prob);
    assert(w1.on_course(config, now, txns, bumps));
    let (_, t2) = w1.tried(config.restart_prob);
    let (n2, u2) = t2.node_drawn();
    world::lemma_restarted(u2, n2, seq![]);
    let w2 = w1.restart_tried(config.restart_prob);
    assert(w2.on_course(config, now, txns, bumps));
    let w3 = w2.partition_tried(config.partition_prob);
    assert(w3.on_course(config, now, txns, bumps));
    let w4 = w3.heal_tried(config.heal_prob);
    assert(w4.on_course(config, now, txns, bumps));
    let (_, t5) = w4.tried(config.placement_bump_prob);
    let (_, u5) = t5.tried(EVEN_ODDS);
    let (n5, v5) = u5.node_drawn();
    let n = w.cluster.num_partitions as nat;
    world::lemma_bumped(v5, rolled_to(n, Some(n5)));
    world::lemma_bumped(u5, rolled_to(n, None));
    assert(w.faulted(config) == w4.bump_tried(config.placement_bump_prob));
}

/// A subscription keeps the run on course.
pub proof fn lemma_subscription_tried(
    w: World,
    p: u64,
    config: SimConfig,
    now: nat,
    txns: nat,
    bumps: nat,
)
    requires
        w.on_course(config, now, txns, bumps),
    ensures
        w.subscription_tried(p).on_course(config, now, txns, bumps),
{
    let (_, w0) = w.tried(p);
    let (node, w1) = w0.up_node_drawn();
    lemma_up_nodes(w0.cluster, w0.cluster.num_partitions as nat);
    match node {
        Some(n) => {
            world::lemma_subscription_added(w1, n);
        },
        None => {},
    }
}

/// Transaction attempts keep the run on course.
pub proof fn lemma_transacted_times(
    w: World,
    m: nat,
    config: SimConfig,
    now: nat,
    txns: nat,
    bumps: nat,
)
    requires
        w.on_course(config, now, txns, bumps),
        16 * (1 + txns + m) <= u64::MAX,
    ensures
        w.transacted_times(m).on_course(config, now, txns + m, bumps),
    decreases m,
{
    if m > 0 {
        lemma_transacted_times(w, (m - 1) as nat, config, now, txns, bumps);
        let (node, w1) = w.transacted_times((m - 1) as nat).up_node_drawn();
        lemma_up_nodes(w1.cluster, w1.cluster.num_partitions as nat);
        match node {
            Some(n) => {
                world::lemma_transacted(w1, n);
            },
            None => {},
        }
    }
}

/// A node that is up, at random.
fn random_up_node(rng: &mut Rng, cluster: &Cluster) -> (r: Option<NodeId>)
    requires
        cluster@.shaped(),
    ensures
        (r, final(rng)@) == drawn_up_node(cluster@, old(rng)@),
        r matches Some(n) ==> n < cluster@.num_partitions,
{
    let ghost c = cluster@;
    let n: u32 = cluster.num_partitions();
    let mut up: Vec<NodeId> = Vec::new();
    let mut i: u32 = 0;
    while i < n
        invariant
            i <= n,
            c == cluster@,
            c.shaped(),
            n == c.num_partitions,
            up@ == up_nodes(c, i as nat),
        decreases n - i,
    {
        if cluster.is_up(i) {
            up.push(i);
        }
        i = i + 1;
    }
    proof {
        lemma_up_nodes(c, n as nat);
    }
    if up.len() == 0 {
        None
    } else {
        Some(*rng.pick(up.as_slice()))
    }
}

/// A random node, up or down.
fn random_node(rng: &mut Rng, cluster: &Cluster) -> (r: NodeId)
    requires
        cluster@.num_partitions > 0,
    ensures
        r < cluster@.num_partitions,
        (r, final(rng)@) == drawn_node(cluster@, old(rng)@),
{
    rng.int_in(0, (cluster.num_partitions() - 1) as u64) as NodeId
}

/// The nodes a placement change reaches.
fn rolled(n: u32, stale: Option<NodeId>) -> (r: Vec<NodeId>)
    ensures
        r@ == rolled_to(n as nat, stale),
{
    let mut r: Vec<NodeId> = Vec::new();
    let mut i: u32 = 0;
    while i < n
        invariant
            i <= n,
            r@ == rolled_to(i as nat, stale),
        decreases n - i,
    {
        let keep: bool = match stale {
            Some(s) => s != i,
            None => true,
        };
        if keep {
            r.push(i);
        }
        i = i + 1;
    }
    r
}

fn inject_faults(rng: &mut Rng, cluster: &mut Cluster, network: &mut Network, config: &SimConfig)
    requires
        old(cluster)@.shaped(),
        old(cluster)@.placement_version < u64::MAX,
    ensures
        (World { cluster: final(cluster)@, net: final(network)@, rng: final(rng)@ }) == (World {
            cluster: old(cluster)@,
            net: old(network)@,
            rng: old(rng)@,
        }).faulted(*config),
{
    let ghost w = World { cluster: cluster@, net: network@, rng: rng@ };
    let p: u32 = cluster.num_partitions();
    if rng.chance(config.crash_prob) {
        let node: NodeId = random_node(rng, cluster);
        cluster.crash(node);
    }
    let ghost w1 = World { cluster: cluster@, net: network@, rng: rng@ };
    assert(w1 == w.crash_tried(config.crash_prob));
    if rng.chance(config.restart_prob) {
        let node: NodeId = random_node(rng, cluster);
        cluster.restart(node);
    }
    let ghost w2 = World { cluster: cluster@, net: network@, rng: rng@ };
    assert(w2 == w1.restart_tried(config.restart_prob));
    if rng.chance(config.partition_prob) {
        let node: NodeId = random_node(rng, cluster);
        network.isolate(node);
    }
    let ghost w3 = World { cluster: cluster@, net: network@, rng: rng@ };
    assert(w3 == w2.partition_tried(config.partition_prob));
    if rng.chance(config.heal_prob) {
        network.heal_all();
    }
    let ghost w4 = World { cluster: cluster@, net: network@, rng: rng@ };
    assert(w4 == w3.heal_tried(config.heal_prob));
    if rng.chance(config.placement_bump_prob) {
        // Usually refresh every node (a clean roll); sometimes leave one node
        // stale to exercise placement-version fencing on prepare.
        let mut stale: Option<NodeId> = None;
        if rng.chance(EVEN_ODDS) && p > 1 {
            stale = Some(random_node(rng, cluster));
        }
        let refreshed: Vec<NodeId> = rolled(p, stale);
        proof {
            lemma_rolled_to(p as nat, p, stale);
        }
        cluster.bump_placement_on(&refreshed);
    }
    assert((World { cluster: cluster@, net: network@, rng: rng@ }) == w4.bump_tried(
        config.placement_bump_prob,
    ));
}

/// One step of the simulation.
#[verifier::rlimit(40)]
fn take_step(
    rng: &mut Rng,
    cluster: &mut Cluster,
    network: &mut Network,
    config: &SimConfig,
    step: SimTime,
    Ghost(txns): Ghost<nat>,
)
    requires
        step > 0,
        (World { cluster: old(cluster)@, net: old(network)@, rng: old(rng)@ }).on_course(
            *config,
            (step - 1) as nat,
            txns,
            (step - 1) as nat,
        ),
        16 * (1 + txns + config.txns_per_step) + 16 <= u64::MAX,
        step + config.network.latency_bound() <= u64::MAX,
    ensures
        (World { cluster: final(cluster)@, net: final(network)@, rng: final(rng)@ }) == (World {
            cluster: old(cluster)@,
            net: old(network)@,
            rng: old(rng)@,
        }).stepped(*config, step),
        (World { cluster: final(cluster)@, net: final(network)@, rng: final(rng)@ }).on_course(
            *config,
            step as nat,
            txns + config.txns_per_step as nat,
            step as nat,
        ),
{
    let ghost w0 = World { cluster: cluster@, net: network@, rng: rng@ };
    cluster.set_now(step);
    // Deliver everything the network has made due this tick.
    let due: Vec<Envelope> = network.deliver_due(step);
    proof {
        world::lemma_tick_begun(w0, step);
        world::lemma_ticked(w0, step);
    }
    cluster.deliver_all(rng, network, due);
    let ghost w1 = World { cluster: cluster@, net: network@, rng: rng@ };
    assert(w1 == w0.ticked(step));
    assert(w1.on_course(*config, step as nat, txns, (step - 1) as nat));
    // Inject faults.
    inject_faults(rng, cluster, network, config);
    let ghost w2 = World { cluster: cluster@, net: network@, rng: rng@ };
    proof {
        lemma_faulted(w1, *config, step as nat, txns, (step - 1) as nat);
        drain::lemma_expired_room(w2);
        world::lemma_watched(w2);
    }
    // Background processes: coordinator timeouts and prepared recovery.
    cluster.tick_background(rng, network);
    let ghost w3 = World { cluster: cluster@, net: network@, rng: rng@ };
    assert(w3.on_course(*config, step as nat, txns, step as nat));
    // New client activity.
    proof {
        lemma_subscription_tried(
            w3,
            config.subscribe_prob,
            *config,
            step as nat,
            txns,
            step as nat,
        );
    }
    if rng.chance(config.subscribe_prob) {
        match random_up_node(rng, cluster) {
            Some(node) => {
                cluster.register_subscription(rng, node);
            },
            None => {},
        }
    }
    let ghost w4 = World { cluster: cluster@, net: network@, rng: rng@ };
    assert(w4 == w3.subscription_tried(config.subscribe_prob));
    let mut done: u64 = 0;
    while done < config.txns_per_step
        invariant
            done <= config.txns_per_step,
            w4.on_course(*config, step as nat, txns, step as nat),
            16 * (1 + txns + config.txns_per_step) + 16 <= u64::MAX,
            step + config.network.latency_bound() <= u64::MAX,
            (World { cluster: cluster@, net: network@, rng: rng@ }) == w4.transacted_times(
                done as nat,
            ),
        decreases config.txns_per_step - done,
    {
        proof {
            lemma_transacted_times(w4, done as nat, *config, step as nat, txns, step as nat);
        }
        match random_up_node(rng, cluster) {
            Some(node) => {
                cluster.try_transaction(rng, network, node);
            },
            None => {},
        }
        done = done + 1;
    }
    let ghost w5 = World { cluster: cluster@, net: network@, rng: rng@ };
    proof {
        lemma_transacted_times(
            w4,
            config.txns_per_step as nat,
            *config,
            step as nat,
            txns,
            step as nat,
        );
        world::lemma_replicated(w5, w5.cluster.num_partitions as nat);
    }
    // Replicas replay the durable commit log: those that are up and not
    // isolated catch up, the rest catch up once they recover.
    cluster.replicate_tick(network);
}

/// The outcome of a single simulation run.
#[derive(Clone, Debug)]
pub struct SimReport {
    pub seed: u64,
    pub steps: u64,
    pub committed: usize,
    pub dropped: u64,
    pub duplicated: u64,
    pub violations: Vec<String>,
    pub trace: Vec<String>,
}

/// Runs one simulation to completion and checks every invariant.
///
/// The report is a function of seed and configuration, and it never holds a
/// violation.
pub fn run(seed: u64, config: &SimConfig) -> (report: SimReport)
    requires
        config.fits(),
    ensures
        report.seed == seed,
        report.steps == config.steps,
        report.committed == end_of_run(seed, *config).cluster.history.len(),
        report.dropped == end_of_run(seed, *config).net.dropped,
        report.duplicated == end_of_run(seed, *config).net.duplicated,
        model::texts_of(report.trace@) == end_of_run(seed, *config).cluster.trace,
        model::texts_of(report.violations@) == invariants::violations(
            end_of_run(seed, *config).cluster,
        ),
        report.violations@.len() == 0,
{
    let mut rng: Rng = Rng::from_seed(seed);
    let mut cluster: Cluster = Cluster::new(config.num_partitions);
    let mut network: Network = Network::new(config.network);
    let ghost w0 = World { cluster: cluster@, net: network@, rng: rng@ };
    proof {
        assert(w0 == World::fresh(seed, *config));
        world::lemma_fresh(w0);
    }
    let mut step: u64 = 0;
    let ghost mut txns: nat = 0;
    while step < config.steps
        invariant
            step <= config.steps,
            config.fits(),
            txns == step * config.txns_per_step,
            (World { cluster: cluster@, net: network@, rng: rng@ }).on_course(
                *config,
                step as nat,
                txns,
                step as nat,
            ),
            (World { cluster: cluster@, net: network@, rng: rng@ }) == World::fresh(
                seed,
                *config,
            ).after_steps(*config, step as nat),
        decreases config.steps - step,
    {
        proof {
            assert((step + 1) * config.txns_per_step <= config.steps * config.txns_per_step)
                by (nonlinear_arith)
                requires
                    step + 1 <= config.steps,
            ;
            assert((step + 1) * config.txns_per_step == txns + config.txns_per_step)
                by (nonlinear_arith)
                requires
                    txns == step * config.txns_per_step,
            ;
        }
        step = step + 1;
        take_step(&mut rng, &mut cluster, &mut network, config, step, Ghost(txns));
        proof {
            txns = txns + config.txns_per_step as nat;
        }
    }
    // Drain to quiescence so the end-state invariants are meaningful.
    cluster.quiesce(&mut rng, &mut network);
    proof {
        invariants::lemma_nothing_left(cluster@);
    }
    let violations: Vec<String> = invariants::check_all(&cluster);
    let (dropped, duplicated) = network.counts();
    let (committed, trace) = cluster.into_outcome();
    SimReport { seed, steps: config.steps, committed, dropped, duplicated, violations, trace }
}

/// Each of `lines` behind `lead`, with a line end behind it.
pub open spec fn listed(lines: Seq<Seq<char>>, lead: Seq<char>) -> Seq<char>
    decreases lines.len(),
{
    if lines.len() == 0 {
        seq![]
    } else {
        listed(lines.drop_last(), lead) + lead + lines.last() + "\n"@
    }
}

/// Appends the lines of `lines` from `from` on.
fn push_lines(s: &mut String, lines: &Vec<String>, from: usize, lead: &str)
    requires
        from <= lines@.len(),
    ensures
        final(s)@ == old(s)@ + listed(model::texts_of(lines@).skip(from as int), lead@),
{
    let ghost start = s@;
    let ghost tail = model::texts_of(lines@).skip(from as int);
    let mut i: usize = from;
    assert(tail.take(0) =~= seq![]);
    assert(s@ =~= start + listed(tail.take(0), lead@));
    while i < lines.len()
        invariant
            from <= i <= lines@.len(),
            tail == model::texts_of(lines@).skip(from as int),
            s@ == start + listed(tail.take(i - from), lead@),
        decreases lines@.len() - i,
    {
        s.append(lead);
        s.append(lines[i].as_str());
        s.append("\n");
        proof {
            let longer = tail.take(i + 1 - from);
            assert(longer.drop_last() =~= tail.take(i - from));
            assert(longer.last() == lines@[i as int]@);
            assert(s@ =~= start + listed(longer, lead@));
        }
        i = i + 1;
    }
    assert(tail.take(i - from) =~= tail);
}

impl SimReport {
    pub fn passed(&self) -> (r: bool)
        ensures
            r == (self.violations@.len() == 0),
    {
        self.violations.len() == 0
    }

    /// How much of the trace a failure report shows.
    pub open spec fn tail_len(self) -> nat {
        if self.trace@.len() < 60 {
            self.trace@.len()
        } else {
            60
        }
    }

    /// The text of a failure report.
    pub open spec fn failure_text(self) -> Seq<char> {
        "SIMULATION FAILED\n  seed: "@ + text::dec(self.seed as nat) + "\n  steps: "@ + text::dec(
            self.steps as nat,
        ) + "\n  committed: "@ + text::dec(self.committed as nat) + "\n  dropped: "@ + text::dec(
            self.dropped as nat,
        ) + ", duplicated: "@ + text::dec(self.duplicated as nat) + "\n  violations:\n"@ + listed(
            model::texts_of(self.violations@),
            "    - "@,
        ) + "  trace (last "@ + text::dec(self.tail_len()) + " events):\n"@ + listed(
            model::texts_of(self.trace@).skip(self.trace@.len() - self.tail_len()),
            "    "@,
        ) + "  reproduce with: cluster_sim::run("@ + text::dec(self.seed as nat) + ", cfg)\n"@
    }

    /// A reproduction blob: the seed, the violations, and the tail of the event
    /// trace.
    pub fn failure_report(&self) -> (r: String)
        ensures
            r@ == self.failure_text(),
    {
        let mut s: String = String::new();
        s.append("SIMULATION FAILED\n  seed: ");
        text::push_dec(&mut s, self.seed);
        s.append("\n  steps: ");
        text::push_dec(&mut s, self.steps);
        s.append("\n  committed: ");
        text::push_dec(&mut s, self.committed as u64);
        s.append("\n  dropped: ");
        text::push_dec(&mut s, self.dropped);
        s.append(", duplicated: ");
        text::push_dec(&mut s, self.duplicated);
        s.append("\n  violations:\n");
        push_lines(&mut s, &self.violations, 0, "    - ");
        assert(model::texts_of(self.violations@).skip(0) =~= model::texts_of(self.violations@));
        // The last slice of the trace is usually enough to see the offending
        // interleaving; the full run is reproducible from the seed alone.
        let tail: usize = if self.trace.len() < 60 {
            self.trace.len()
        } else {
            60
        };
        s.append("  trace (last ");
        text::push_dec(&mut s, tail as u64);
        s.append(" events):\n");
        push_lines(&mut s, &self.trace, self.trace.len() - tail, "    ");
        s.append("  reproduce with: cluster_sim::run(");
        text::push_dec(&mut s, self.seed);
        s.append(", cfg)\n");
        assert(s@ =~= self.failure_text());
        s
    }
}

/// The nodes that are up are listed, all of them, in order, and one of them is drawn
/// where there is one.
pub proof fn nodes_that_are_up_are_drawn(c: ClusterState, rng: RngState, m: nat, n: NodeId, i: int, j: int)
    requires
        m <= u32::MAX,
    ensures
        up_nodes(c, m).contains(n) <==> n < m && c.nodes[n as int].up,
        0 <= i < j < up_nodes(c, m).len() ==> up_nodes(c, m)[i] < up_nodes(c, m)[j],
        forall|k: int| 0 <= k < up_nodes(c, m).len() ==> (#[trigger] up_nodes(c, m)[k]) < m,
    decreases m,
{
    if m > 0 {
        let rest = up_nodes(c, (m - 1) as nat);
        let all = up_nodes(c, m);
        let last = (m - 1) as NodeId;
        nodes_that_are_up_are_drawn(c, rng, (m - 1) as nat, n, i, j);
        if rest.contains(n) {
            let k = choose|k: int| 0 <= k < rest.len() && rest[k] == n;
            assert(all[k] == n);
        }
        if all.contains(n) && !rest.contains(n) {
            let k = choose|k: int| 0 <= k < all.len() && all[k] == n;
            if k < rest.len() {
                assert(rest[k] == n);
            }
        }
        if c.nodes[m - 1].up {
            assert(all[rest.len() as int] == last);
        }
        if 0 <= i < j < all.len() {
            if j < rest.len() {
                assert(rest[i] < rest[j]);
            } else {
                assert(rest[i] < m - 1);
            }
        }
    }
}

/// A node that is drawn is one that is up; none is drawn where none is, and nothing
/// is drawn then.
pub proof fn drawn_nodes_are_up(c: ClusterState, rng: RngState)
    requires
        c.num_partitions <= usize::MAX,
    ensures
        match drawn_up_node(c, rng).0 {
            Some(n) => n < c.num_partitions && c.nodes[n as int].up,
            None => drawn_up_node(c, rng).1 == rng && forall|n: NodeId|
                n < c.num_partitions ==> !#[trigger] c.nodes[n as int].up,
        },
{
    let m = c.num_partitions as nat;
    let up = up_nodes(c, m);
    lemma_up_nodes_len(c, m);
    if up.len() > 0 {
        let (i, _) = rng.index(up.len() as usize);
        assert(i < up.len());
        let n = up[i as int];
        assert(up.contains(n));
        nodes_that_are_up_are_drawn(c, rng, m, n, 0, 0);
    } else {
        assert forall|n: NodeId| n < c.num_partitions implies !#[trigger] c.nodes[n as int].up by {
            nodes_that_are_up_are_drawn(c, rng, m, n, 0, 0);
            assert(!up.contains(n));
        }
    }
}

proof fn lemma_up_nodes_len(c: ClusterState, m: nat)
    ensures
        up_nodes(c, m).len() <= m,
    decreases m,
{
    if m > 0 {
        lemma_up_nodes_len(c, (m - 1) as nat);
    }
}

/// A placement rolls out to every node, or to every node but the one that is left
/// behind.
pub proof fn placements_roll_out_to_all_but_one(m: nat, stale: Option<NodeId>, n: NodeId)
    requires
        m <= u32::MAX,
    ensures
        rolled_to(m, stale).contains(n) <==> n < m && stale != Some(n),
    decreases m,
{
    if m > 0 {
        let rest = rolled_to((m - 1) as nat, stale);
        let all = rolled_to(m, stale);
        let last = (m - 1) as NodeId;
        placements_roll_out_to_all_but_one((m - 1) as nat, stale, n);
        if rest.contains(n) {
            let k = choose|k: int| 0 <= k < rest.len() && rest[k] == n;
            assert(all[k] == n);
        }
        if all.contains(n) && !rest.contains(n) {
            let k = choose|k: int| 0 <= k < all.len() && all[k] == n;
            if k < rest.len() {
                assert(rest[k] == n);
            }
        }
        if stale != Some(last) {
            assert(all[rest.len() as int] == last);
        }
    }
}

/// Each fault happens exactly where its chance does: a node that is drawn crashes,
/// restarts or is cut off, or all are reachable again; where it does not, only the
/// draw is remembered.
pub proof fn faults_happen_by_chance(w: World, p: u64)
    ensures
        ({
            let hit = w.rng.chance(p).0;
            let missed = World { rng: w.rng.chance(p).1, ..w };
            let node = drawn_node(w.cluster, w.rng.chance(p).1).0;
            &&& !hit ==> w.crash_tried(p) == missed && w.restart_tried(p) == missed
                && w.partition_tried(p) == missed && w.heal_tried(p) == missed && w.bump_tried(p)
                == missed && w.subscription_tried(p) == missed
            &&& hit ==> {
                &&& w.crash_tried(p).cluster == w.cluster.crashed(node)
                &&& w.crash_tried(p).net == w.net
                &&& w.restart_tried(p).cluster == w.cluster.restarted(node)
                &&& w.restart_tried(p).net == w.net
                &&& w.partition_tried(p).cluster == w.cluster
                &&& w.partition_tried(p).net.isolated == w.net.isolated.insert(node)
                &&& w.partition_tried(p).net.in_flight == w.net.in_flight
                &&& w.heal_tried(p).cluster == w.cluster
                &&& w.heal_tried(p).net.isolated == Set::<NodeId>::empty()
                &&& w.heal_tried(p).net.in_flight == w.net.in_flight
                &&& w.bump_tried(p).cluster.placement_version == (w.cluster.placement_version
                    + 1) as u64
                &&& w.bump_tried(p).net == w.net
            }
        }),
{
}

/// A drawn node is one of the cluster's.
pub proof fn drawn_nodes_are_of_the_cluster(c: ClusterState, rng: RngState)
    requires
        c.num_partitions > 0,
    ensures
        drawn_node(c, rng).0 < c.num_partitions,
{
}

/// A step delivers what is due, has its faults, gives up what is late, lets in a
/// subscription and as many transactions as it should, and replicates, in this order;
/// a run is one step after the other, until all is quiet.
pub proof fn runs_are_made_of_steps(w: World, config: SimConfig, step: SimTime, n: nat, m: nat, seed: u64)
    requires
        n + 1 <= u64::MAX,
    ensures
        ({
            let ticked = w.ticked(step);
            let faulted = ticked.crash_tried(config.crash_prob).restart_tried(
                config.restart_prob,
            ).partition_tried(config.partition_prob).heal_tried(config.heal_prob).bump_tried(
                config.placement_bump_prob,
            );
            w.stepped(config, step) == faulted.watched().subscription_tried(
                config.subscribe_prob,
            ).transacted_times(config.txns_per_step as nat).synced()
        }),
        w.transacted_times(0) == w,
        ({
            let before = w.transacted_times(m);
            match drawn_up_node(before.cluster, before.rng).0 {
                Some(node) => w.transacted_times(m + 1) == (World {
                    rng: drawn_up_node(before.cluster, before.rng).1,
                    ..before
                }).transacted(node),
                None => w.transacted_times(m + 1).cluster == before.cluster,
            }
        }),
        w.after_steps(config, 0) == w,
        w.after_steps(config, n + 1) == w.after_steps(config, n).stepped(config, (n + 1) as u64),
        end_of_run(seed, config) == World::fresh(seed, config).after_steps(
            config,
            config.steps as nat,
        ).quiesced(),
        World::fresh(seed, config).rng.seed == seed,
        World::fresh(seed, config).cluster.num_partitions == config.num_partitions,
        World::fresh(seed, config).net.config == config.network,
{
}

} // verus!
