//! Invariant checks run after a simulation quiesces.
//!
//! Each check returns a list of human-readable violations, empty when it
//! passed: serializability, snapshot consistency, no lost committed writes, no
//! phantom prepared transactions, monotonic frontiers, and no missed
//! invalidations.
use crate::model;
use crate::model::preservation;
use crate::model::safety;
use crate::model::state;
use crate::model::state::{ClusterState, NodeState, SubState, TxnState};
use crate::model::{Cluster, CommittedTxn, Subscription};
use crate::ordered;
use crate::text;
use crate::types::{Key, NodeId, Ts, Value};
use std::collections::BTreeMap;
use vstd::prelude::*;
use vstd::string::*;

verus! {

broadcast use {vstd::std_specs::btree::group_btree_axioms, vstd::laws_cmp::group_laws_cmp};

/// `f(0)`, `f(1)`, up to `f(n - 1)`, one after the other.
pub open spec fn flat(n: nat, f: spec_fn(int) -> Seq<Seq<char>>) -> Seq<Seq<char>>
    decreases n,
{
    if n == 0 {
        seq![]
    } else {
        flat((n - 1) as nat, f) + f(n - 1)
    }
}

/// Nothing put together is nothing.
proof fn lemma_flat_empty(n: nat, f: spec_fn(int) -> Seq<Seq<char>>)
    requires
        forall|i: int| 0 <= i < n ==> (#[trigger] f(i)).len() == 0,
    ensures
        flat(n, f).len() == 0,
    decreases n,
{
    if n > 0 {
        lemma_flat_empty((n - 1) as nat, f);
        assert(f(n - 1).len() == 0);
    }
}

/// A single line, or none.
pub open spec fn line_if(bad: bool, line: Seq<char>) -> Seq<Seq<char>> {
    if bad {
        seq![line]
    } else {
        seq![]
    }
}

/// The line for sample `i` of the committed floor, if it is below the sample
/// before it.
pub open spec fn floor_line(samples: Seq<Ts>, i: int) -> Seq<Seq<char>> {
    let prev: Ts = if i == 0 {
        0
    } else {
        samples[i - 1]
    };
    line_if(
        samples[i] < prev,
        "monotonic-floor: committed floor regressed "@ + text::dec(prev as nat) + " -> "@
            + text::dec(samples[i] as nat),
    )
}

/// The committed floor never moves down.
pub open spec fn monotonic_floor_lines(c: ClusterState) -> Seq<Seq<char>> {
    flat(c.floor_samples.len(), |i: int| floor_line(c.floor_samples, i))
}

/// The last exposed frontier of `node` for `source`.
pub open spec fn last_exposed(
    samples: Seq<(NodeId, NodeId, Ts)>,
    node: NodeId,
    source: NodeId,
) -> Ts
    decreases samples.len(),
{
    if samples.len() == 0 {
        0
    } else if samples.last().0 == node && samples.last().1 == source {
        samples.last().2
    } else {
        last_exposed(samples.drop_last(), node, source)
    }
}

/// The line for frontier sample `i`, if it is below the last one of its node
/// and source.
pub open spec fn frontier_line(samples: Seq<(NodeId, NodeId, Ts)>, i: int) -> Seq<Seq<char>> {
    let (node, source, ts) = samples[i];
    let prev = last_exposed(samples.take(i), node, source);
    line_if(
        ts < prev,
        "monotonic-frontier: node "@ + text::dec(node as nat) + " source "@ + text::dec(
            source as nat,
        ) + " regressed "@ + text::dec(prev as nat) + " -> "@ + text::dec(ts as nat),
    )
}

/// No replication frontier moves down.
pub open spec fn monotonic_frontiers_lines(c: ClusterState) -> Seq<Seq<char>> {
    flat(c.frontier_samples.len(), |i: int| frontier_line(c.frontier_samples, i))
}

/// What was recorded during the run.
pub open spec fn live_violations_lines(c: ClusterState) -> Seq<Seq<char>> {
    c.live_violations.map_values(|v: Seq<char>| "live: "@ + v)
}

/// `a` is before `b`: by timestamp, by value where the timestamps agree.
pub open spec fn earlier(a: (Ts, Value), b: (Ts, Value)) -> bool {
    a.0 < b.0 || (a.0 == b.0 && a.1 < b.1)
}

/// The sorted `q` with `p` in its place.
pub open spec fn placed(q: Seq<(Ts, Value)>, p: (Ts, Value)) -> Seq<(Ts, Value)>
    decreases q.len(),
{
    if q.len() == 0 || !earlier(p, q.last()) {
        q.push(p)
    } else {
        placed(q.drop_last(), p).push(q.last())
    }
}

/// The committed versions of `key` in order.
pub open spec fn series(history: Seq<TxnState>, key: Key) -> Seq<(Ts, Value)>
    decreases history.len(),
{
    if history.len() == 0 {
        seq![]
    } else {
        let q = series(history.drop_last(), key);
        let t = history.last();
        if t.writes.contains_key(key) {
            placed(q, (t.commit_ts, t.writes[key]))
        } else {
            q
        }
    }
}

/// The keys that some committed transaction wrote.
pub open spec fn written(history: Seq<TxnState>) -> Set<Key>
    decreases history.len(),
{
    if history.len() == 0 {
        Set::empty()
    } else {
        written(history.drop_last()).union(history.last().writes.dom())
    }
}

/// The line for a write of `key` at `at`, if it lands strictly between the
/// snapshot and the commit of `t`, which read the key.
pub open spec fn overwrite_line(t: TxnState, key: Key, at: Ts) -> Seq<Seq<char>> {
    line_if(
        t.begin_ts < at < t.commit_ts,
        "serializability: txn "@ + text::dec(t.id as nat) + " (begin="@ + text::dec(
            t.begin_ts as nat,
        ) + ", commit="@ + text::dec(t.commit_ts as nat) + ") read key "@ + text::dec(key as nat)
            + " but it was overwritten at "@ + text::dec(at as nat),
    )
}

pub open spec fn overwrites_of_key(history: Seq<TxnState>, t: TxnState, key: Key) -> Seq<
    Seq<char>,
> {
    let q = series(history, key);
    flat(q.len(), |m: int| overwrite_line(t, key, q[m].0))
}

pub open spec fn overwrites_of(history: Seq<TxnState>, t: TxnState) -> Seq<Seq<char>> {
    let keys = ordered::ascending_u32(t.reads.dom());
    flat(keys.len(), |j: int| overwrites_of_key(history, t, keys[j]))
}

/// No committed write lands between a transaction's snapshot of the key and
/// its commit.
pub open spec fn serializable_lines(c: ClusterState) -> Seq<Seq<char>> {
    flat(c.history.len(), |i: int| overwrites_of(c.history, c.history[i]))
}

/// The value of the last version in `q` that is not after `ts`, 0 without one.
pub open spec fn visible(q: Seq<(Ts, Value)>, ts: Ts) -> Value
    decreases q.len(),
{
    if q.len() == 0 {
        0
    } else if q.last().0 <= ts {
        q.last().1
    } else {
        visible(q.drop_last(), ts)
    }
}

/// The line for the read of `key` by `t`, if it is not the snapshot's value.
pub open spec fn misread_line(history: Seq<TxnState>, t: TxnState, key: Key) -> Seq<Seq<char>> {
    let expected = visible(series(history, key), t.begin_ts);
    line_if(
        expected != t.reads[key],
        "snapshot-consistency: txn "@ + text::dec(t.id as nat) + " at begin="@ + text::dec(
            t.begin_ts as nat,
        ) + " read key "@ + text::dec(key as nat) + " = "@ + text::dec(t.reads[key] as nat)
            + ", but the value as of that snapshot was "@ + text::dec(expected as nat),
    )
}

pub open spec fn misreads_of(history: Seq<TxnState>, t: TxnState) -> Seq<Seq<char>> {
    let keys = ordered::ascending_u32(t.reads.dom());
    flat(keys.len(), |j: int| misread_line(history, t, keys[j]))
}

/// Every read saw the value of its snapshot.
pub open spec fn snapshot_consistent_lines(c: ClusterState) -> Seq<Seq<char>> {
    flat(c.history.len(), |i: int| misreads_of(c.history, c.history[i]))
}

/// A version as it is printed.
pub open spec fn version_text(v: Option<(Ts, Value)>) -> Seq<char> {
    match v {
        Some((ts, val)) => "Some(("@ + text::dec(ts as nat) + ", "@ + text::dec(val as nat)
            + "))"@,
        None => "None"@,
    }
}

/// The line for `key`, if its owner does not have its latest committed write.
pub open spec fn lost_write_line(c: ClusterState, key: Key) -> Seq<Seq<char>> {
    let q = series(c.history, key);
    let latest = q.last();
    line_if(
        q.len() > 0 && c.latest(key) != Some(latest),
        "no-lost-writes: key "@ + text::dec(key as nat) + " latest committed write ("@ + text::dec(
            latest.0 as nat,
        ) + ", "@ + text::dec(latest.1 as nat) + ") is not durable on its owner (found "@
            + version_text(c.latest(key)) + ")"@,
    )
}

/// Every key's latest committed write is on its owner.
pub open spec fn no_lost_writes_lines(c: ClusterState) -> Seq<Seq<char>> {
    let keys = ordered::ascending_u32(written(c.history));
    flat(keys.len(), |j: int| lost_write_line(c, keys[j]))
}

/// No transaction is left prepared.
pub open spec fn no_phantom_prepared_lines(c: ClusterState) -> Seq<Seq<char>> {
    let count = c.prepared_total(c.num_partitions as nat);
    line_if(
        count != 0,
        "no-phantom-prepared: "@ + text::dec(count)
            + " prepared transaction(s) remained unresolved after quiescing"@,
    )
}

/// `t` committed after `sub` was registered and wrote a key it watches.
pub open spec fn concerns(t: TxnState, sub: SubState) -> bool {
    t.commit_ts > sub.registered_ts && exists|k: Key| #[trigger]
        t.writes.contains_key(k) && sub.read_keys.contains(k)
}

/// The line for subscription `i`, if it should have been invalidated.
pub open spec fn missed_line(c: ClusterState, i: int) -> Seq<Seq<char>> {
    let sub = c.subs[i];
    let owed = exists|j: int| 0 <= j < c.history.len() && #[trigger] concerns(c.history[j], sub);
    line_if(
        owed && !sub.invalidated,
        "missed-invalidation: subscription "@ + text::dec(i as nat) + " on node "@ + text::dec(
            sub.node as nat,
        ) + " watching "@ + text::list_text("{"@, ordered::ascending_u32(sub.read_keys), "}"@)
            + " (registered at "@ + text::dec(sub.registered_ts as nat)
            + ") was never invalidated despite an intersecting committed write"@,
    )
}

/// Every subscription a committed write concerns is invalidated.
pub open spec fn no_missed_invalidations_lines(c: ClusterState) -> Seq<Seq<char>> {
    flat(c.subs.len(), |i: int| missed_line(c, i))
}

/// There is a node for every partition, and an owner for whatever was committed.
pub open spec fn is_checkable(c: ClusterState) -> bool {
    &&& c.staffed()
    &&& c.num_partitions > 0 || c.history.len() == 0
}

/// All violations of a cluster, check by check.
pub open spec fn violations(c: ClusterState) -> Seq<Seq<char>> {
    monotonic_floor_lines(c) + monotonic_frontiers_lines(c) + live_violations_lines(c)
        + serializable_lines(c) + snapshot_consistent_lines(c) + no_lost_writes_lines(c)
        + no_phantom_prepared_lines(c) + no_missed_invalidations_lines(c)
}

proof fn lemma_texts_push(q: Seq<String>, s: String)
    ensures
        model::texts_of(q.push(s)) == model::texts_of(q).push(s@),
{
    assert(model::texts_of(q.push(s)) =~= model::texts_of(q).push(s@));
}

fn monotonic_floor(cluster: &Cluster) -> (out: Vec<String>)
    ensures
        model::texts_of(out@) == monotonic_floor_lines(cluster@),
{
    let mut out: Vec<String> = Vec::new();
    let mut prev: Ts = 0;
    let mut i: usize = 0;
    let ghost q = cluster.floor_samples@;
    let ghost f = |i: int| floor_line(q, i);
    assert(model::texts_of(out@) =~= flat(0, f));
    while i < cluster.floor_samples.len()
        invariant
            i <= q.len(),
            q == cluster.floor_samples@,
            f == (|i: int| floor_line(q, i)),
            prev == (if i == 0 {
                0
            } else {
                q[i - 1]
            }),
            model::texts_of(out@) == flat(i as nat, f),
        decreases q.len() - i,
    {
        let ts: Ts = cluster.floor_samples[i];
        let ghost before = out@;
        if ts < prev {
            let mut s: String = String::new();
            s.append("monotonic-floor: committed floor regressed ");
            text::push_dec(&mut s, prev);
            s.append(" -> ");
            text::push_dec(&mut s, ts);
            proof {
                assert(s@ =~= "monotonic-floor: committed floor regressed "@ + text::dec(
                    prev as nat,
                ) + " -> "@ + text::dec(ts as nat));
                lemma_texts_push(out@, s);
            }
            out.push(s);
        }
        assert(model::texts_of(out@) =~= model::texts_of(before) + f(i as int));
        prev = ts;
        i = i + 1;
    }
    assert(f =~= (|i: int| floor_line(cluster@.floor_samples, i)));
    out
}

/// One number for a node and a source.
fn pair_key(node: NodeId, source: NodeId) -> (r: u64)
    ensures
        r == node * 0x1_0000_0000 + source,
{
    node as u64 * 0x1_0000_0000 + source as u64
}

fn monotonic_frontiers(cluster: &Cluster) -> (out: Vec<String>)
    ensures
        model::texts_of(out@) == monotonic_frontiers_lines(cluster@),
{
    let mut out: Vec<String> = Vec::new();
    let mut last: BTreeMap<u64, Ts> = BTreeMap::new();
    let mut i: usize = 0;
    let ghost q = cluster.frontier_samples@;
    let ghost f = |i: int| frontier_line(q, i);
    assert(model::texts_of(out@) =~= flat(0, f));
    while i < cluster.frontier_samples.len()
        invariant
            i <= q.len(),
            q == cluster.frontier_samples@,
            f == (|i: int| frontier_line(q, i)),
            forall|a: NodeId, b: NodeId|
                #![trigger last_exposed(q.take(i as int), a, b)]
                last_exposed(q.take(i as int), a, b) == (if last@.contains_key(
                    (a * 0x1_0000_0000 + b) as u64,
                ) {
                    last@[(a * 0x1_0000_0000 + b) as u64]
                } else {
                    0
                }),
            model::texts_of(out@) == flat(i as nat, f),
        decreases q.len() - i,
    {
        let (node, source, ts) = cluster.frontier_samples[i];
        let key: u64 = pair_key(node, source);
        let ghost seen = last@;
        let prev: Ts = match last.get(&key) {
            Some(p) => *p,
            None => 0,
        };
        let ghost before = out@;
        assert(prev == last_exposed(q.take(i as int), node, source));
        if ts < prev {
            let mut s: String = String::new();
            s.append("monotonic-frontier: node ");
            text::push_dec(&mut s, node as u64);
            s.append(" source ");
            text::push_dec(&mut s, source as u64);
            s.append(" regressed ");
            text::push_dec(&mut s, prev);
            s.append(" -> ");
            text::push_dec(&mut s, ts);
            proof {
                assert(s@ =~= "monotonic-frontier: node "@ + text::dec(node as nat) + " source "@
                    + text::dec(source as nat) + " regressed "@ + text::dec(prev as nat) + " -> "@
                    + text::dec(ts as nat));
                lemma_texts_push(out@, s);
            }
            out.push(s);
        }
        assert(model::texts_of(out@) =~= model::texts_of(before) + f(i as int));
        last.insert(key, ts);
        proof {
            let longer = q.take(i + 1);
            assert(longer.drop_last() =~= q.take(i as int));
            assert(longer.last() == q[i as int]);
            assert forall|a: NodeId, b: NodeId|
                #![trigger last_exposed(longer, a, b)]
                last_exposed(longer, a, b) == (if last@.contains_key(
                    (a * 0x1_0000_0000 + b) as u64,
                ) {
                    last@[(a * 0x1_0000_0000 + b) as u64]
                } else {
                    0
                }) by {
                assert(last_exposed(q.take(i as int), a, b) == (if seen.contains_key(
                    (a * 0x1_0000_0000 + b) as u64,
                ) {
                    seen[(a * 0x1_0000_0000 + b) as u64]
                } else {
                    0
                }));
            }
        }
        i = i + 1;
    }
    assert(f =~= (|i: int| frontier_line(cluster@.frontier_samples, i)));
    out
}

fn live_violations(cluster: &Cluster) -> (out: Vec<String>)
    ensures
        model::texts_of(out@) == live_violations_lines(cluster@),
{
    let mut out: Vec<String> = Vec::new();
    let ghost q = cluster.live_violations@;
    let mut i: usize = 0;
    while i < cluster.live_violations.len()
        invariant
            i <= q.len(),
            q == cluster.live_violations@,
            out@.len() == i,
            forall|a: int| 0 <= a < i ==> (#[trigger] out@[a])@ == "live: "@ + q[a].0@,
        decreases q.len() - i,
    {
        let mut s: String = String::new();
        s.append("live: ");
        s.append(cluster.live_violations[i].0.as_str());
        assert(s@ =~= "live: "@ + q[i as int].0@);
        out.push(s);
        i = i + 1;
    }
    assert(model::texts_of(out@) =~= live_violations_lines(cluster@));
    out
}

/// Puts `p` where it belongs in the sorted `q`.
fn place(q: &mut Vec<(Ts, Value)>, p: (Ts, Value))
    ensures
        final(q)@ == placed(old(q)@, p),
{
    let mut i: usize = q.len();
    while i > 0 && (p.0 < q[i - 1].0 || (p.0 == q[i - 1].0 && p.1 < q[i - 1].1))
        invariant
            i <= q.len(),
            forall|j: int| i <= j < q.len() ==> earlier(p, #[trigger] q@[j]),
        decreases i,
    {
        i = i - 1;
    }
    proof {
        lemma_placed_at(q@, p, i as int);
    }
    q.insert(i, p);
}

proof fn lemma_placed_at(q: Seq<(Ts, Value)>, p: (Ts, Value), i: int)
    requires
        0 <= i <= q.len(),
        forall|j: int| i <= j < q.len() ==> earlier(p, #[trigger] q[j]),
        i > 0 ==> !earlier(p, q[i - 1]),
    ensures
        placed(q, p) == q.insert(i, p),
    decreases q.len(),
{
    if i == q.len() {
        assert(q.insert(i, p) =~= q.push(p));
    } else {
        assert(earlier(p, q[q.len() - 1]));
        assert forall|j: int| i <= j < q.drop_last().len() implies earlier(
            p,
            #[trigger] q.drop_last()[j],
        ) by {
            assert(q.drop_last()[j] == q[j]);
        }
        lemma_placed_at(q.drop_last(), p, i);
        assert(q.insert(i, p) =~= q.drop_last().insert(i, p).push(q.last()));
    }
}

/// `m` holds the series of every written key.
spec fn holds_series(m: Map<Key, Vec<(Ts, Value)>>, history: Seq<TxnState>) -> bool {
    &&& m.dom() == written(history)
    &&& forall|k: Key| #[trigger] m.contains_key(k) ==> m[k]@ == series(history, k)
    &&& forall|k: Key| !m.contains_key(k) ==> #[trigger] series(history, k) == Seq::<
        (Ts, Value),
    >::empty()
}

/// Builds, per key, the sorted timeline of committed `(commit_ts, value)`.
fn timelines(cluster: &Cluster) -> (m: BTreeMap<Key, Vec<(Ts, Value)>>)
    ensures
        holds_series(m@, cluster@.history),
{
    let mut m: BTreeMap<Key, Vec<(Ts, Value)>> = BTreeMap::new();
    let ghost h = cluster@.history;
    let mut i: usize = 0;
    proof {
        assert(h.take(0) =~= seq![]);
        assert(m@.dom() =~= written(h.take(0)));
    }
    while i < cluster.history.len()
        invariant
            i <= h.len(),
            h == model::history_of(cluster.history@),
            h.len() == cluster.history.len(),
            holds_series(m@, h.take(i as int)),
        decreases h.len() - i,
    {
        add_writes(&mut m, &cluster.history[i], Ghost(h.take(i as int)));
        proof {
            assert(h[i as int] == cluster.history@[i as int]@);
            assert(h.take(i + 1) =~= h.take(i as int).push(h[i as int]));
        }
        i = i + 1;
    }
    assert(h.take(i as int) =~= h);
    m
}

/// Adds the writes of `t` to the series.
fn add_writes(
    m: &mut BTreeMap<Key, Vec<(Ts, Value)>>,
    t: &CommittedTxn,
    Ghost(history): Ghost<Seq<TxnState>>,
)
    requires
        holds_series(old(m)@, history),
    ensures
        holds_series(final(m)@, history.push(t@)),
{
    let keys: Vec<Key> = ordered::keys_u32(&t.writes);
    let ghost before = m@;
    let ghost longer = history.push(t@);
    let ghost dom = t.writes@.dom();
    proof {
        assert(longer.drop_last() =~= history);
        assert(longer.last() == t@);
    }
    let mut j: usize = 0;
    while j < keys.len()
        invariant
            j <= keys.len(),
            holds_series(before, history),
            longer == history.push(t@),
            longer.drop_last() == history,
            longer.last() == t@,
            dom == t.writes@.dom(),
            keys@.to_set() == dom,
            ordered::sorted_u32(keys@),
            m@.dom() == before.dom().union(keys@.take(j as int).to_set()),
            forall|k: Key| #[trigger]
                m@.contains_key(k) ==> m@[k]@ == (if keys@.take(j as int).contains(k) {
                    series(longer, k)
                } else {
                    before[k]@
                }),
        decreases keys.len() - j,
    {
        let key: Key = keys[j];
        proof {
            assert(keys@.to_set().contains(key));
            assert(dom.contains(key));
            assert(!keys@.take(j as int).contains(key)) by {
                if keys@.take(j as int).contains(key) {
                    let a = choose|a: int|
                        0 <= a < j && #[trigger] keys@.take(j as int)[a] == key;
                    assert(keys@[a] == key);
                }
            }
            assert(!keys@.take(j as int).to_set().contains(key));
        }
        let ghost mid = m@;
        let value: Value = match t.writes.get(&key) {
            Some(v) => *v,
            None => 0,
        };
        let mut q: Vec<(Ts, Value)> = match m.remove(&key) {
            Some(q) => q,
            None => Vec::new(),
        };
        proof {
            assert(q@ == series(history, key)) by {
                if mid.contains_key(key) {
                    assert(before.dom().contains(key));
                    assert(before.contains_key(key));
                    assert(mid[key]@ == before[key]@);
                } else {
                    assert(!before.dom().contains(key));
                    assert(!before.contains_key(key));
                    assert(series(history, key) == Seq::<(Ts, Value)>::empty());
                }
            }
        }
        place(&mut q, (t.commit_ts, value));
        assert(q@ == series(longer, key));
        m.insert(key, q);
        proof {
            let now = keys@.take(j as int);
            let next = keys@.take(j + 1);
            assert(next =~= now.push(key));
            assert forall|k: Key| next.contains(k) == (now.contains(k) || k == key) by {
                if now.contains(k) {
                    let a = choose|a: int| 0 <= a < now.len() && now[a] == k;
                    assert(next[a] == k);
                }
                if k == key {
                    assert(next[j as int] == k);
                }
                if next.contains(k) {
                    let a = choose|a: int| 0 <= a < next.len() && next[a] == k;
                    if a < j {
                        assert(now[a] == k);
                    }
                }
            }
            assert forall|k: Key| #[trigger] m@.contains_key(k) implies m@[k]@ == (
            if next.contains(k) {
                series(longer, k)
            } else {
                before[k]@
            }) by {
                if k != key {
                    assert(mid.contains_key(k));
                    assert(m@[k] == mid[k]);
                }
            }
            assert(m@.dom() =~= before.dom().union(next.to_set()));
        }
        j = j + 1;
    }
    proof {
        assert(keys@.take(j as int) =~= keys@);
        assert(m@.dom() =~= written(longer));
        assert forall|k: Key| #[trigger] m@.contains_key(k) implies m@[k]@ == series(longer, k) by {
            if keys@.contains(k) {
            } else {
                assert(!keys@.to_set().contains(k));
                assert(!dom.contains(k));
                assert(before.contains_key(k));
            }
        }
        assert forall|k: Key| !m@.contains_key(k) implies #[trigger] series(longer, k) == Seq::<
            (Ts, Value),
        >::empty() by {
            assert(!before.contains_key(k));
            assert(!dom.contains(k));
            assert(series(history, k) == Seq::<(Ts, Value)>::empty());
        }
    }
}

/// Appends the lines for the writes that slipped between snapshot and commit
/// of `t` on `key`.
fn push_overwrites(
    out: &mut Vec<String>,
    t: &CommittedTxn,
    key: Key,
    q: &Vec<(Ts, Value)>,
    Ghost(history): Ghost<Seq<TxnState>>,
)
    requires
        q@ == series(history, key),
    ensures
        model::texts_of(final(out)@) == model::texts_of(old(out)@) + overwrites_of_key(
            history,
            t@,
            key,
        ),
{
    let ghost start = model::texts_of(out@);
    let ghost f = |m: int| overwrite_line(t@, key, series(history, key)[m].0);
    let mut m: usize = 0;
    assert(model::texts_of(out@) =~= start + flat(0, f));
    while m < q.len()
        invariant
            m <= q.len(),
            q@ == series(history, key),
            f == (|m: int| overwrite_line(t@, key, series(history, key)[m].0)),
            model::texts_of(out@) == start + flat(m as nat, f),
        decreases q.len() - m,
    {
        let commit_ts: Ts = q[m].0;
        let ghost before = out@;
        if commit_ts > t.begin_ts && commit_ts < t.commit_ts {
            let mut s: String = String::new();
            s.append("serializability: txn ");
            text::push_dec(&mut s, t.id);
            s.append(" (begin=");
            text::push_dec(&mut s, t.begin_ts);
            s.append(", commit=");
            text::push_dec(&mut s, t.commit_ts);
            s.append(") read key ");
            text::push_dec(&mut s, key as u64);
            s.append(" but it was overwritten at ");
            text::push_dec(&mut s, commit_ts);
            proof {
                assert(s@ =~= "serializability: txn "@ + text::dec(t.id as nat) + " (begin="@
                    + text::dec(t.begin_ts as nat) + ", commit="@ + text::dec(t.commit_ts as nat)
                    + ") read key "@ + text::dec(key as nat) + " but it was overwritten at "@
                    + text::dec(commit_ts as nat));
                lemma_texts_push(out@, s);
            }
            out.push(s);
        }
        assert(model::texts_of(out@) =~= model::texts_of(before) + f(m as int));
        assert(model::texts_of(out@) =~= start + flat((m + 1) as nat, f));
        m = m + 1;
    }
}

fn serializable(cluster: &Cluster) -> (out: Vec<String>)
    ensures
        model::texts_of(out@) == serializable_lines(cluster@),
{
    let mut out: Vec<String> = Vec::new();
    let lines: BTreeMap<Key, Vec<(Ts, Value)>> = timelines(cluster);
    let ghost h = cluster@.history;
    let ghost f = |i: int| overwrites_of(h, h[i]);
    let mut i: usize = 0;
    assert(model::texts_of(out@) =~= flat(0, f));
    while i < cluster.history.len()
        invariant
            i <= h.len(),
            h == model::history_of(cluster.history@),
            h.len() == cluster.history.len(),
            holds_series(lines@, h),
            f == (|i: int| overwrites_of(h, h[i])),
            model::texts_of(out@) == flat(i as nat, f),
        decreases h.len() - i,
    {
        let t: &CommittedTxn = &cluster.history[i];
        let keys: Vec<Key> = ordered::keys_u32(&t.reads);
        let ghost start = model::texts_of(out@);
        let ghost g = |j: int| overwrites_of_key(h, t@, keys@[j]);
        let mut j: usize = 0;
        assert(model::texts_of(out@) =~= start + flat(0, g));
        while j < keys.len()
            invariant
                j <= keys.len(),
                holds_series(lines@, h),
                g == (|j: int| overwrites_of_key(h, t@, keys@[j])),
                model::texts_of(out@) == start + flat(j as nat, g),
            decreases keys.len() - j,
        {
            let key: Key = keys[j];
            let ghost before = model::texts_of(out@);
            match lines.get(&key) {
                Some(q) => {
                    push_overwrites(&mut out, t, key, q, Ghost(h));
                },
                None => {
                    assert(series(h, key) == Seq::<(Ts, Value)>::empty());
                    assert(model::texts_of(out@) =~= before + overwrites_of_key(h, t@, key));
                },
            }
            assert(g(j as int) == overwrites_of_key(h, t@, key));
            assert(model::texts_of(out@) =~= start + flat((j + 1) as nat, g));
            j = j + 1;
        }
        proof {
            assert(h[i as int] == t@);
            assert(g =~= (|j: int|
                overwrites_of_key(h, h[i as int], ordered::ascending_u32(h[i as int].reads.dom())[j])));
            assert(f(i as int) == overwrites_of(h, h[i as int]));
        }
        i = i + 1;
    }
    assert(f =~= (|i: int| overwrites_of(cluster@.history, cluster@.history[i])));
    out
}

/// The value a snapshot at `ts` shows.
fn value_at(q: &Vec<(Ts, Value)>, ts: Ts) -> (r: Value)
    ensures
        r == visible(q@, ts),
{
    let mut i: usize = q.len();
    assert(q@.take(i as int) =~= q@);
    while i > 0
        invariant
            i <= q.len(),
            visible(q@, ts) == visible(q@.take(i as int), ts),
        decreases i,
    {
        assert(q@.take(i as int).drop_last() =~= q@.take(i - 1));
        if q[i - 1].0 <= ts {
            return q[i - 1].1;
        }
        i = i - 1;
    }
    0
}

fn snapshot_consistent(cluster: &Cluster) -> (out: Vec<String>)
    ensures
        model::texts_of(out@) == snapshot_consistent_lines(cluster@),
{
    let mut out: Vec<String> = Vec::new();
    let lines: BTreeMap<Key, Vec<(Ts, Value)>> = timelines(cluster);
    let ghost h = cluster@.history;
    let ghost f = |i: int| misreads_of(h, h[i]);
    let mut i: usize = 0;
    assert(model::texts_of(out@) =~= flat(0, f));
    while i < cluster.history.len()
        invariant
            i <= h.len(),
            h == model::history_of(cluster.history@),
            h.len() == cluster.history.len(),
            holds_series(lines@, h),
            f == (|i: int| misreads_of(h, h[i])),
            model::texts_of(out@) == flat(i as nat, f),
        decreases h.len() - i,
    {
        let t: &CommittedTxn = &cluster.history[i];
        let keys: Vec<Key> = ordered::keys_u32(&t.reads);
        let ghost start = model::texts_of(out@);
        let ghost g = |j: int| misread_line(h, t@, keys@[j]);
        let mut j: usize = 0;
        assert(model::texts_of(out@) =~= start + flat(0, g));
        while j < keys.len()
            invariant
                j <= keys.len(),
                keys@.to_set() == t.reads@.dom(),
                holds_series(lines@, h),
                g == (|j: int| misread_line(h, t@, keys@[j])),
                model::texts_of(out@) == start + flat(j as nat, g),
            decreases keys.len() - j,
        {
            let key: Key = keys[j];
            let ghost before = out@;
            let expected: Value = match lines.get(&key) {
                Some(q) => value_at(q, t.begin_ts),
                None => 0,
            };
            proof {
                assert(keys@.to_set().contains(key));
                if !lines@.contains_key(key) {
                    assert(series(h, key) == Seq::<(Ts, Value)>::empty());
                }
                assert(expected == visible(series(h, key), t.begin_ts));
            }
            let seen: Value = match t.reads.get(&key) {
                Some(v) => *v,
                None => 0,
            };
            if expected != seen {
                let mut s: String = String::new();
                s.append("snapshot-consistency: txn ");
                text::push_dec(&mut s, t.id);
                s.append(" at begin=");
                text::push_dec(&mut s, t.begin_ts);
                s.append(" read key ");
                text::push_dec(&mut s, key as u64);
                s.append(" = ");
                text::push_dec(&mut s, seen);
                s.append(", but the value as of that snapshot was ");
                text::push_dec(&mut s, expected);
                proof {
                    assert(s@ =~= "snapshot-consistency: txn "@ + text::dec(t.id as nat)
                        + " at begin="@ + text::dec(t.begin_ts as nat) + " read key "@ + text::dec(
                        key as nat,
                    ) + " = "@ + text::dec(seen as nat)
                        + ", but the value as of that snapshot was "@ + text::dec(expected as nat));
                    lemma_texts_push(out@, s);
                }
                out.push(s);
            }
            proof {
                assert(g(j as int) == misread_line(h, t@, key));
                assert(model::texts_of(out@) =~= model::texts_of(before) + g(j as int));
                assert(model::texts_of(out@) =~= start + flat((j + 1) as nat, g));
            }
            j = j + 1;
        }
        proof {
            assert(h[i as int] == t@);
            assert(g =~= (|j: int|
                misread_line(h, h[i as int], ordered::ascending_u32(h[i as int].reads.dom())[j])));
            assert(f(i as int) == misreads_of(h, h[i as int]));
        }
        i = i + 1;
    }
    assert(f =~= (|i: int| misreads_of(cluster@.history, cluster@.history[i])));
    out
}

/// Prints a version.
fn push_version(s: &mut String, v: Option<(Ts, Value)>)
    ensures
        final(s)@ == old(s)@ + version_text(v),
{
    let ghost start = s@;
    match v {
        Some((ts, val)) => {
            s.append("Some((");
            text::push_dec(s, ts);
            s.append(", ");
            text::push_dec(s, val);
            s.append("))");
        },
        None => {
            s.append("None");
        },
    }
    assert(s@ =~= start + version_text(v));
}

fn no_lost_writes(cluster: &Cluster) -> (out: Vec<String>)
    requires
        is_checkable(cluster@),
    ensures
        model::texts_of(out@) == no_lost_writes_lines(cluster@),
{
    let mut out: Vec<String> = Vec::new();
    let lines: BTreeMap<Key, Vec<(Ts, Value)>> = timelines(cluster);
    let keys: Vec<Key> = ordered::keys_u32(&lines);
    let ghost c = cluster@;
    let ghost f = |j: int| lost_write_line(c, keys@[j]);
    let mut j: usize = 0;
    assert(model::texts_of(out@) =~= flat(0, f));
    while j < keys.len()
        invariant
            j <= keys.len(),
            c == cluster@,
            is_checkable(c),
            keys@.to_set() == lines@.dom(),
            holds_series(lines@, c.history),
            f == (|j: int| lost_write_line(c, keys@[j])),
            model::texts_of(out@) == flat(j as nat, f),
        decreases keys.len() - j,
    {
        let key: Key = keys[j];
        assert(keys@.to_set().contains(key));
        let ghost before = out@;
        match lines.get(&key) {
            Some(q) => {
                if q.len() > 0 {
                    let (latest_ts, latest_val) = q[q.len() - 1];
                    let other: Option<(Ts, Value)> = cluster.owner_value(key);
                    let durable: bool = match other {
                        Some((ts, val)) => ts == latest_ts && val == latest_val,
                        None => false,
                    };
                    if !durable {
                        let mut s: String = String::new();
                        s.append("no-lost-writes: key ");
                        text::push_dec(&mut s, key as u64);
                        s.append(" latest committed write (");
                        text::push_dec(&mut s, latest_ts);
                        s.append(", ");
                        text::push_dec(&mut s, latest_val);
                        s.append(") is not durable on its owner (found ");
                        push_version(&mut s, other);
                        s.append(")");
                        proof {
                            assert(s@ =~= "no-lost-writes: key "@ + text::dec(key as nat)
                                + " latest committed write ("@ + text::dec(latest_ts as nat)
                                + ", "@ + text::dec(latest_val as nat)
                                + ") is not durable on its owner (found "@ + version_text(other)
                                + ")"@);
                            lemma_texts_push(out@, s);
                        }
                        out.push(s);
                    }
                }
            },
            None => {},
        }
        proof {
            assert(f(j as int) == lost_write_line(c, key));
            assert(model::texts_of(out@) =~= model::texts_of(before) + f(j as int));
        }
        j = j + 1;
    }
    assert(f =~= (|j: int| lost_write_line(c, ordered::ascending_u32(written(c.history))[j])));
    out
}

fn no_phantom_prepared(cluster: &Cluster) -> (out: Vec<String>)
    requires
        cluster@.staffed(),
        cluster@.prepared_total(cluster@.num_partitions as nat) <= usize::MAX,
    ensures
        model::texts_of(out@) == no_phantom_prepared_lines(cluster@),
{
    let mut out: Vec<String> = Vec::new();
    let count: usize = cluster.prepared_count();
    if count != 0 {
        let mut s: String = String::new();
        s.append("no-phantom-prepared: ");
        text::push_dec(&mut s, count as u64);
        s.append(" prepared transaction(s) remained unresolved after quiescing");
        proof {
            assert(s@ =~= "no-phantom-prepared: "@ + text::dec(count as nat)
                + " prepared transaction(s) remained unresolved after quiescing"@);
            lemma_texts_push(out@, s);
        }
        out.push(s);
    }
    assert(model::texts_of(out@) =~= no_phantom_prepared_lines(cluster@));
    out
}

/// Whether `t` committed after `sub` was registered and wrote a watched key.
fn is_concerned(t: &CommittedTxn, sub: &Subscription) -> (r: bool)
    ensures
        r == concerns(t@, sub@),
{
    if t.commit_ts <= sub.registered_ts {
        return false;
    }
    let keys: Vec<Key> = ordered::keys_u32(&t.writes);
    let mut j: usize = 0;
    while j < keys.len()
        invariant
            j <= keys.len(),
            keys@.to_set() == t.writes@.dom(),
            t.commit_ts > sub.registered_ts,
            forall|a: int| 0 <= a < j ==> !sub.read_keys@.contains(#[trigger] keys@[a]),
        decreases keys.len() - j,
    {
        if sub.read_keys.contains(&keys[j]) {
            assert(keys@.to_set().contains(keys@[j as int]));
            assert(t@.writes.contains_key(keys@[j as int]));
            return true;
        }
        j = j + 1;
    }
    assert forall|k: Key| #[trigger] t@.writes.contains_key(k) implies !sub@.read_keys.contains(
        k,
    ) by {
        assert(keys@.to_set().contains(k));
        let a = choose|a: int| 0 <= a < keys.len() && keys@[a] == k;
        assert(!sub.read_keys@.contains(keys@[a]));
    }
    false
}

fn no_missed_invalidations(cluster: &Cluster) -> (out: Vec<String>)
    ensures
        model::texts_of(out@) == no_missed_invalidations_lines(cluster@),
{
    let mut out: Vec<String> = Vec::new();
    let ghost c = cluster@;
    let ghost f = |i: int| missed_line(c, i);
    let mut i: usize = 0;
    assert(model::texts_of(out@) =~= flat(0, f));
    while i < cluster.subs.len()
        invariant
            i <= cluster.subs.len(),
            c == cluster@,
            c.subs == model::subs_of(cluster.subs@),
            c.history == model::history_of(cluster.history@),
            f == (|i: int| missed_line(c, i)),
            model::texts_of(out@) == flat(i as nat, f),
        decreases cluster.subs.len() - i,
    {
        let sub: &Subscription = &cluster.subs[i];
        assert(c.subs[i as int] == sub@);
        let ghost before = out@;
        let mut owed: bool = false;
        let mut j: usize = 0;
        while j < cluster.history.len() && !owed
            invariant
                j <= cluster.history.len(),
                c.history == model::history_of(cluster.history@),
                owed == exists|a: int| 0 <= a < j && #[trigger] concerns(c.history[a], sub@),
            decreases cluster.history.len() - j,
        {
            assert(c.history[j as int] == cluster.history@[j as int]@);
            if is_concerned(&cluster.history[j], sub) {
                assert(concerns(c.history[j as int], sub@));
                owed = true;
            }
            j = j + 1;
        }
        proof {
            assert(owed == exists|a: int|
                0 <= a < c.history.len() && #[trigger] concerns(c.history[a], sub@));
        }
        if owed && !sub.invalidated {
            let keys: Vec<Key> = ordered::members_u32(&sub.read_keys);
            let mut s: String = String::new();
            s.append("missed-invalidation: subscription ");
            text::push_dec(&mut s, i as u64);
            s.append(" on node ");
            text::push_dec(&mut s, sub.node as u64);
            s.append(" watching ");
            text::push_list(&mut s, "{", &keys, "}");
            s.append(" (registered at ");
            text::push_dec(&mut s, sub.registered_ts);
            s.append(") was never invalidated despite an intersecting committed write");
            proof {
                assert(s@ =~= "missed-invalidation: subscription "@ + text::dec(i as nat)
                    + " on node "@ + text::dec(sub.node as nat) + " watching "@ + text::list_text(
                    "{"@,
                    keys@,
                    "}"@,
                ) + " (registered at "@ + text::dec(sub.registered_ts as nat)
                    + ") was never invalidated despite an intersecting committed write"@);
                lemma_texts_push(out@, s);
            }
            out.push(s);
        }
        assert(model::texts_of(out@) =~= model::texts_of(before) + f(i as int));
        i = i + 1;
    }
    out
}

/// Appends `more`.
fn extend(v: &mut Vec<String>, more: Vec<String>)
    ensures
        model::texts_of(final(v)@) == model::texts_of(old(v)@) + model::texts_of(more@),
{
    let mut more: Vec<String> = more;
    assert(model::texts_of(v@ + more@) =~= model::texts_of(v@) + model::texts_of(more@));
    v.append(&mut more);
}

/// Runs every check and collects all violations.
pub fn check_all(cluster: &Cluster) -> (v: Vec<String>)
    requires
        is_checkable(cluster@),
        cluster@.prepared_total(cluster@.num_partitions as nat) <= usize::MAX,
    ensures
        model::texts_of(v@) == violations(cluster@),
        cluster@.inv() && cluster@.nothing_prepared() && cluster@.caught_up() ==> v@.len() == 0,
        cluster@ == ClusterState::fresh(cluster@.num_partitions) ==> v@.len() == 0,
{
    let mut v: Vec<String> = Vec::new();
    assert(model::texts_of(v@) =~= seq![]);
    extend(&mut v, monotonic_floor(cluster));
    extend(&mut v, monotonic_frontiers(cluster));
    extend(&mut v, live_violations(cluster));
    extend(&mut v, serializable(cluster));
    extend(&mut v, snapshot_consistent(cluster));
    extend(&mut v, no_lost_writes(cluster));
    extend(&mut v, no_phantom_prepared(cluster));
    extend(&mut v, no_missed_invalidations(cluster));
    proof {
        assert(model::texts_of(v@) =~= violations(cluster@));
        let c = cluster@;
        if c.inv() && c.nothing_prepared() && c.caught_up() {
            assert forall|i: int| 0 <= i < c.history.len() implies (
            #[trigger] c.history[i]).reads.dom().finite() by {
                assert(c.history[i] == cluster.history@[i]@);
            }
            lemma_no_violations(c);
        }
        if c == ClusterState::fresh(c.num_partitions) {
            lemma_fresh_is_clean(c.num_partitions);
        }
    }
    v
}

/// A cluster that has done nothing has done nothing wrong.
proof fn lemma_fresh_is_clean(n: u32)
    ensures
        violations(ClusterState::fresh(n)) == Seq::<Seq<char>>::empty(),
{
    let c = ClusterState::fresh(n);
    ordered::lemma_ascending_u32(written(c.history));
    let keys = ordered::ascending_u32(written(c.history));
    if keys.len() > 0 {
        assert(keys.to_set().contains(keys[0]));
    }
    assert forall|i: int| 0 <= i < c.nodes.len() implies (
    #[trigger] c.nodes[i]).prepared.dom().is_empty() by {
        assert(c.nodes[i] == NodeState::fresh());
    }
    lemma_nothing_left(c);
    assert(violations(c) =~= seq![]);
}

/// The last exposed frontier is zero or one of the samples.
proof fn lemma_last_exposed(samples: Seq<(NodeId, NodeId, Ts)>, node: NodeId, source: NodeId)
    ensures
        last_exposed(samples, node, source) == 0 || exists|i: int|
            0 <= i < samples.len() && #[trigger] samples[i] == (
                node,
                source,
                last_exposed(samples, node, source),
            ),
    decreases samples.len(),
{
    if samples.len() > 0 {
        let p = samples.drop_last();
        if samples.last().0 == node && samples.last().1 == source {
            assert(samples[samples.len() - 1] == (node, source, samples.last().2));
        } else {
            lemma_last_exposed(p, node, source);
            let x = last_exposed(p, node, source);
            if x != 0 {
                let i = choose|i: int| 0 <= i < p.len() && #[trigger] p[i] == (node, source, x);
                assert(samples[i] == (node, source, x));
            }
        }
    }
}

/// The series is sorted by timestamp.
spec fn by_time(q: Seq<(Ts, Value)>) -> bool {
    forall|i: int, j: int| 0 <= i <= j < q.len() ==> (#[trigger] q[i]).0 <= (#[trigger] q[j]).0
}

/// The series lists exactly the versions of `m`.
spec fn lists(q: Seq<(Ts, Value)>, m: Map<Ts, Value>) -> bool {
    &&& forall|i: int|
        0 <= i < q.len() ==> m.contains_key((#[trigger] q[i]).0) && m[q[i].0] == q[i].1
    &&& forall|t: Ts| #[trigger] m.contains_key(t) ==> q.contains((t, m[t]))
}

proof fn lemma_placed(q: Seq<(Ts, Value)>, p: (Ts, Value))
    requires
        by_time(q),
    ensures
        by_time(placed(q, p)),
        placed(q, p).contains(p),
        forall|x: (Ts, Value)| q.contains(x) ==> #[trigger] placed(q, p).contains(x),
        forall|i: int|
            0 <= i < placed(q, p).len() ==> #[trigger] placed(q, p)[i] == p || q.contains(
                placed(q, p)[i],
            ),
    decreases q.len(),
{
    let r = placed(q, p);
    if q.len() == 0 || !earlier(p, q.last()) {
        assert(r[q.len() as int] == p);
        assert forall|x: (Ts, Value)| q.contains(x) implies #[trigger] r.contains(x) by {
            let i = choose|i: int| 0 <= i < q.len() && q[i] == x;
            assert(r[i] == x);
        }
        assert forall|i: int| 0 <= i < r.len() implies #[trigger] r[i] == p || q.contains(r[i]) by {
            if i < q.len() {
                assert(q[i] == r[i]);
            }
        }
        assert forall|i: int, j: int| 0 <= i <= j < r.len() implies (#[trigger] r[i]).0 <= (
        #[trigger] r[j]).0 by {
            if j < q.len() {
                assert(q[i].0 <= q[j].0);
            } else if i < q.len() {
                assert(q[i].0 <= q[q.len() - 1].0);
            }
        }
    } else {
        let d = q.drop_last();
        assert forall|i: int, j: int| 0 <= i <= j < d.len() implies (#[trigger] d[i]).0 <= (
        #[trigger] d[j]).0 by {
            assert(q[i].0 <= q[j].0);
        }
        lemma_placed(d, p);
        let s = placed(d, p);
        let k = choose|k: int| 0 <= k < s.len() && s[k] == p;
        assert(r[k] == p);
        assert forall|x: (Ts, Value)| q.contains(x) implies #[trigger] r.contains(x) by {
            let i = choose|i: int| 0 <= i < q.len() && q[i] == x;
            if i < d.len() {
                assert(d[i] == x);
                assert(s.contains(x));
                let m = choose|m: int| 0 <= m < s.len() && s[m] == x;
                assert(r[m] == x);
            } else {
                assert(r[s.len() as int] == x);
            }
        }
        assert forall|i: int| 0 <= i < r.len() implies #[trigger] r[i] == p || q.contains(r[i]) by {
            if i < s.len() {
                assert(r[i] == s[i]);
                if s[i] != p {
                    let m = choose|m: int| 0 <= m < d.len() && d[m] == s[i];
                    assert(q[m] == r[i]);
                }
            } else {
                assert(q[q.len() - 1] == r[i]);
            }
        }
        assert forall|i: int, j: int| 0 <= i <= j < r.len() implies (#[trigger] r[i]).0 <= (
        #[trigger] r[j]).0 by {
            if j < s.len() {
                assert(s[i].0 <= s[j].0);
            } else if i < s.len() {
                assert(r[i] == s[i]);
                if s[i] != p {
                    assert(d.contains(s[i]));
                    let m = choose|m: int| 0 <= m < d.len() && d[m] == s[i];
                    assert(q[m].0 <= q[q.len() - 1].0);
                }
            }
        }
    }
}

/// With unique commit timestamps the series of a key is its timeline, sorted.
proof fn lemma_series(history: Seq<TxnState>, key: Key)
    requires
        forall|i: int, j: int|
            0 <= i < j < history.len() ==> (#[trigger] history[i]).commit_ts != (
            #[trigger] history[j]).commit_ts,
    ensures
        by_time(series(history, key)),
        lists(series(history, key), safety::timeline(history, key)),
    decreases history.len(),
{
    if history.len() > 0 {
        let p = history.drop_last();
        let t = history.last();
        assert forall|i: int, j: int| 0 <= i < j < p.len() implies (#[trigger] p[i]).commit_ts != (
        #[trigger] p[j]).commit_ts by {
            assert(history[i].commit_ts != history[j].commit_ts);
        }
        lemma_series(p, key);
        if t.writes.contains_key(key) {
            let q = series(p, key);
            let m = safety::timeline(p, key);
            let new = (t.commit_ts, t.writes[key]);
            lemma_placed(q, new);
            preservation::lemma_timeline_points(p, key);
            let r = series(history, key);
            let n = safety::timeline(history, key);
            assert(!m.contains_key(t.commit_ts)) by {
                if m.contains_key(t.commit_ts) {
                    let i = choose|i: int|
                        0 <= i < p.len() && (#[trigger] p[i]).commit_ts == t.commit_ts;
                    assert(history[i].commit_ts != history[history.len() - 1].commit_ts);
                }
            }
            assert forall|i: int| 0 <= i < r.len() implies n.contains_key((#[trigger] r[i]).0)
                && n[r[i].0] == r[i].1 by {
                if r[i] != new {
                    assert(q.contains(r[i]));
                    let k = choose|k: int| 0 <= k < q.len() && q[k] == r[i];
                    assert(m.contains_key(q[k].0));
                }
            }
            assert forall|x: Ts| #[trigger] n.contains_key(x) implies r.contains((x, n[x])) by {
                if x != t.commit_ts {
                    assert(m.contains_key(x));
                    assert(q.contains((x, m[x])));
                }
            }
        }
    }
}

/// What `visible` finds.
proof fn lemma_visible(q: Seq<(Ts, Value)>, ts: Ts)
    ensures
        ({
            ||| visible(q, ts) == 0 && forall|i: int| 0 <= i < q.len() ==> (#[trigger] q[i]).0 > ts
            ||| exists|j: int|
                0 <= j < q.len() && (#[trigger] q[j]).0 <= ts && visible(q, ts) == q[j].1
                    && forall|i: int| j < i < q.len() ==> (#[trigger] q[i]).0 > ts
        }),
    decreases q.len(),
{
    if q.len() > 0 {
        if q.last().0 <= ts {
            assert(q[q.len() - 1].0 <= ts);
        } else {
            let d = q.drop_last();
            lemma_visible(d, ts);
            if forall|i: int| 0 <= i < d.len() ==> (#[trigger] d[i]).0 > ts {
                assert forall|i: int| 0 <= i < q.len() implies (#[trigger] q[i]).0 > ts by {
                    if i < d.len() {
                        assert(d[i].0 > ts);
                    }
                }
                if d.len() > 0 {
                    if exists|j: int| 0 <= j < d.len() && (#[trigger] d[j]).0 <= ts {
                        let j = choose|j: int| 0 <= j < d.len() && (#[trigger] d[j]).0 <= ts;
                        assert(d[j].0 > ts);
                    }
                }
            } else {
                let j = choose|j: int|
                    0 <= j < d.len() && (#[trigger] d[j]).0 <= ts && visible(d, ts) == d[j].1
                        && forall|i: int| j < i < d.len() ==> (#[trigger] d[i]).0 > ts;
                assert(q[j].0 <= ts && visible(q, ts) == q[j].1);
                assert forall|i: int| j < i < q.len() implies (#[trigger] q[i]).0 > ts by {
                    if i < d.len() {
                        assert(d[i].0 > ts);
                    }
                }
            }
        }
    }
}

/// The last visible version is the newest one no later than the snapshot.
proof fn lemma_visible_newest(q: Seq<(Ts, Value)>, m: Map<Ts, Value>, ts: Ts)
    requires
        by_time(q),
        lists(q, m),
        m.dom().finite(),
    ensures
        visible(q, ts) == (match state::newest(state::up_to(m, ts)) {
            Some((t, v)) => v,
            None => 0,
        }),
{
    let u = state::up_to(m, ts);
    lemma_visible(q, ts);
    if u.dom().is_empty() {
        assert forall|i: int| 0 <= i < q.len() implies (#[trigger] q[i]).0 > ts by {
            if q[i].0 <= ts {
                assert(m.contains_key(q[i].0));
                assert(u.dom().contains(q[i].0));
            }
        }
    } else {
        let t0 = choose|t: Ts| u.dom().contains(t);
        assert(u.dom().contains(t0));
        assert(m.contains_key(t0) && t0 <= ts);
        assert(q.contains((t0, m[t0])));
        let k = choose|k: int| 0 <= k < q.len() && q[k] == (t0, m[t0]);
        assert(q[k].0 <= ts);
        let j = choose|j: int|
            0 <= j < q.len() && (#[trigger] q[j]).0 <= ts && visible(q, ts) == q[j].1
                && forall|i: int| j < i < q.len() ==> (#[trigger] q[i]).0 > ts;
        assert(u.dom().contains(q[j].0));
        assert(u.dom().subset_of(m.dom()));
        vstd::set_lib::lemma_set_subset_finite(m.dom(), u.dom());
        assert(u.dom().len() > 0) by {
            if u.dom().len() == 0 {
                assert(u.dom() =~= Set::empty());
            }
        }
        let g = ordered::lemma_greatest_u64(u.dom());
        assert(g == ordered::greatest_u64(u.dom()));
        assert(m.contains_key(g) && g <= ts);
        assert(q.contains((g, m[g])));
        let i = choose|i: int| 0 <= i < q.len() && q[i] == (g, m[g]);
        assert(i <= j);
        assert(q[i].0 <= q[j].0);
        assert(q[j].0 <= g);
    }
}

/// The end of the series is the newest version.
proof fn lemma_series_end(q: Seq<(Ts, Value)>, m: Map<Ts, Value>)
    requires
        by_time(q),
        lists(q, m),
        m.dom().finite(),
        q.len() > 0,
    ensures
        state::newest(m) == Some(q.last()),
{
    let l = q.len() - 1;
    assert(m.contains_key(q[l].0));
    assert(m.dom().contains(q[l].0));
    assert(m.dom().len() > 0) by {
        if m.dom().len() == 0 {
            assert(m.dom() =~= Set::empty());
        }
    }
    let g = ordered::lemma_greatest_u64(m.dom());
    assert(m.contains_key(g));
    assert(q.contains((g, m[g])));
    let i = choose|i: int| 0 <= i < q.len() && q[i] == (g, m[g]);
    assert(q[i].0 <= q[l].0);
    assert(q[l].0 <= g);
}

/// Without a prepared slice the count is zero.
pub proof fn lemma_nothing_left(c: ClusterState)
    requires
        c.staffed(),
        c.nothing_prepared(),
    ensures
        c.prepared_total(c.num_partitions as nat) == 0,
{
    lemma_none_prepared(c, c.num_partitions as nat);
}

proof fn lemma_none_prepared(c: ClusterState, m: nat)
    requires
        c.nothing_prepared(),
        m <= c.nodes.len(),
    ensures
        c.prepared_total(m) == 0,
    decreases m,
{
    if m > 0 {
        lemma_none_prepared(c, (m - 1) as nat);
        assert(c.nodes[m - 1].prepared.dom().is_empty());
        assert(c.nodes[m - 1].prepared.dom() =~= Set::empty());
    }
}

/// A transaction that concerns a subscription of a current replica has
/// invalidated it.
pub proof fn lemma_invalidated(c: ClusterState, i: int, j: int)
    requires
        c.inv(),
        c.caught_up(),
        0 <= i < c.subs.len(),
        0 <= j < c.history.len(),
        concerns(c.history[j], c.subs[i]),
    ensures
        c.subs[i].invalidated,
{
    let t = c.history[j];
    let sub = c.subs[i];
    let k = choose|k: Key| #[trigger] t.writes.contains_key(k) && sub.read_keys.contains(k);
    assert(c.in_log(t.commit_ts, k));
    let e = choose|e: int|
        0 <= e < c.commit_log.len() && (#[trigger] c.commit_log[e]).ts == t.commit_ts
            && state::writes_key(c.commit_log[e].writes, k);
    let w = c.commit_log[e].writes;
    let x = choose|x: int| 0 <= x < w.len() && #[trigger] w[x].0 == k;
    assert(sub.read_keys.contains(w[x].0));
    assert(state::touches(w, sub.read_keys));
    assert(c.covered(i, e));
    assert(c.nodes[sub.node as int].cursor == c.commit_log.len());
}

/// Every committed transaction read finitely many keys.
pub open spec fn finite_reads(c: ClusterState) -> bool {
    forall|i: int| 0 <= i < c.history.len() ==> (#[trigger] c.history[i]).reads.dom().finite()
}

proof fn lemma_reads_listed(c: ClusterState, i: int, j: int)
    requires
        finite_reads(c),
        0 <= i < c.history.len(),
        0 <= j < ordered::ascending_u32(c.history[i].reads.dom()).len(),
    ensures
        c.history[i].reads.contains_key(ordered::ascending_u32(c.history[i].reads.dom())[j]),
{
    let keys = ordered::ascending_u32(c.history[i].reads.dom());
    ordered::lemma_ascending_u32(c.history[i].reads.dom());
    assert(keys.to_set().contains(keys[j]));
}

/// A cluster that keeps its invariant, has nothing prepared and is current on
/// every replica violates nothing: it is serializable, every read was
/// consistent with its snapshot, no committed write was lost, no frontier
/// moved down and no invalidation was missed.
pub proof fn lemma_no_violations(c: ClusterState)
    requires
        c.inv(),
        c.nothing_prepared(),
        c.caught_up(),
        finite_reads(c),
    ensures
        violations(c) == Seq::<Seq<char>>::empty(),
        c.prepared_total(c.num_partitions as nat) == 0,
{
    let h = c.history;
    let fs = c.floor_samples;
    let ff = |i: int| floor_line(fs, i);
    assert forall|i: int| 0 <= i < fs.len() implies (#[trigger] ff(i)).len() == 0 by {
        if i > 0 {
            assert(fs[i - 1] <= fs[i]);
        }
    }
    lemma_flat_empty(fs.len(), ff);
    let qs = c.frontier_samples;
    let fq = |i: int| frontier_line(qs, i);
    assert forall|i: int| 0 <= i < qs.len() implies (#[trigger] fq(i)).len() == 0 by {
        let (node, source, ts) = qs[i];
        let head = qs.take(i);
        lemma_last_exposed(head, node, source);
        let prev = last_exposed(head, node, source);
        if prev != 0 {
            let a = choose|a: int| 0 <= a < head.len() && #[trigger] head[a] == (node, source, prev);
            assert(qs[a] == (node, source, prev));
            assert(qs[a].2 <= qs[i].2);
        }
    }
    lemma_flat_empty(qs.len(), fq);
    assert forall|k: Key| by_time(#[trigger] series(h, k)) && lists(
        series(h, k),
        safety::timeline(h, k),
    ) && safety::timeline(h, k).dom().finite() by {
        lemma_series(h, k);
        preservation::lemma_timeline_finite(h, k);
    }
    let so = |i: int| overwrites_of(h, h[i]);
    assert forall|i: int| 0 <= i < h.len() implies (#[trigger] so(i)).len() == 0 by {
        let t = h[i];
        let keys = ordered::ascending_u32(t.reads.dom());
        let g = |j: int| overwrites_of_key(h, t, keys[j]);
        assert forall|j: int| 0 <= j < keys.len() implies (#[trigger] g(j)).len() == 0 by {
            let k = keys[j];
            let q = series(h, k);
            let l = |m: int| overwrite_line(t, k, q[m].0);
            assert forall|m: int| 0 <= m < q.len() implies (#[trigger] l(m)).len() == 0 by {
                lemma_reads_listed(c, i, j);
                assert(h[i].reads.contains_key(k));
                assert(safety::timeline(h, k).contains_key(q[m].0));
            }
            lemma_flat_empty(q.len(), l);
        }
        lemma_flat_empty(keys.len(), g);
    }
    lemma_flat_empty(h.len(), so);
    let sm = |i: int| misreads_of(h, h[i]);
    assert forall|i: int| 0 <= i < h.len() implies (#[trigger] sm(i)).len() == 0 by {
        let t = h[i];
        let keys = ordered::ascending_u32(t.reads.dom());
        let g = |j: int| misread_line(h, t, keys[j]);
        assert forall|j: int| 0 <= j < keys.len() implies (#[trigger] g(j)).len() == 0 by {
            let k = keys[j];
            lemma_reads_listed(c, i, j);
            assert(h[i].reads.contains_key(k));
            assert(by_time(series(h, k)));
            lemma_visible_newest(series(h, k), safety::timeline(h, k), t.begin_ts);
        }
        lemma_flat_empty(keys.len(), g);
    }
    lemma_flat_empty(h.len(), sm);
    let keys = ordered::ascending_u32(written(h));
    let lw = |j: int| lost_write_line(c, keys[j]);
    assert forall|j: int| 0 <= j < keys.len() implies (#[trigger] lw(j)).len() == 0 by {
        let k = keys[j];
        assert(by_time(series(h, k)));
        if series(h, k).len() > 0 {
            lemma_series_end(series(h, k), safety::timeline(h, k));
            assert(c.node(c.owner(k)).versions(k) == safety::timeline(h, k));
        }
    }
    lemma_flat_empty(keys.len(), lw);
    lemma_none_prepared(c, c.num_partitions as nat);
    let mi = |i: int| missed_line(c, i);
    assert forall|i: int| 0 <= i < c.subs.len() implies (#[trigger] mi(i)).len() == 0 by {
        let sub = c.subs[i];
        if exists|j: int| 0 <= j < h.len() && #[trigger] concerns(h[j], sub) {
            let j = choose|j: int| 0 <= j < h.len() && #[trigger] concerns(h[j], sub);
            lemma_invalidated(c, i, j);
        }
    }
    lemma_flat_empty(c.subs.len(), mi);
    assert(violations(c) =~= Seq::<Seq<char>>::empty());
}

proof fn lemma_flat_holds(n: nat, f: spec_fn(int) -> Seq<Seq<char>>, i: int)
    requires
        flat(n, f).len() == 0,
        0 <= i < n,
    ensures
        f(i).len() == 0,
    decreases n,
{
    if i < n - 1 {
        lemma_flat_holds((n - 1) as nat, f, i);
    }
}

/// A clean report means that the committed floor never went back.
pub proof fn clean_reports_mean_a_growing_floor(c: ClusterState, i: int)
    requires
        violations(c).len() == 0,
        0 <= i,
        i + 1 < c.floor_samples.len(),
    ensures
        c.floor_samples[i] <= c.floor_samples[i + 1],
{
    let f = |i: int| floor_line(c.floor_samples, i);
    assert(monotonic_floor_lines(c) == flat(c.floor_samples.len(), f));
    lemma_flat_holds(c.floor_samples.len(), f, i + 1);
}

proof fn lemma_last_exposed_at(
    samples: Seq<(NodeId, NodeId, Ts)>,
    node: NodeId,
    source: NodeId,
    i: int,
)
    requires
        0 <= i < samples.len(),
        samples[i].0 == node && samples[i].1 == source,
        forall|k: int|
            i < k < samples.len() ==> !((#[trigger] samples[k]).0 == node && samples[k].1 == source),
    ensures
        last_exposed(samples, node, source) == samples[i].2,
    decreases samples.len(),
{
    let n = samples.len() - 1;
    assert(samples[n] == samples.last());
    if i < n {
        let front = samples.drop_last();
        assert forall|k: int| i < k < front.len() implies !((#[trigger] front[k]).0 == node
            && front[k].1 == source) by {
            assert(samples[k] == front[k]);
        }
        lemma_last_exposed_at(front, node, source, i);
    }
}

/// A clean report means that what a node knew of another never went back.
pub proof fn clean_reports_mean_growing_frontiers(c: ClusterState, i: int, j: int)
    requires
        violations(c).len() == 0,
        0 <= i < j < c.frontier_samples.len(),
        c.frontier_samples[i].0 == c.frontier_samples[j].0,
        c.frontier_samples[i].1 == c.frontier_samples[j].1,
        forall|k: int|
            i < k < j ==> !((#[trigger] c.frontier_samples[k]).0 == c.frontier_samples[j].0
                && c.frontier_samples[k].1 == c.frontier_samples[j].1),
    ensures
        c.frontier_samples[i].2 <= c.frontier_samples[j].2,
{
    let samples = c.frontier_samples;
    let f = |i: int| frontier_line(samples, i);
    assert(monotonic_frontiers_lines(c) == flat(samples.len(), f));
    lemma_flat_holds(samples.len(), f, j);
    let head = samples.take(j);
    assert forall|k: int| i < k < head.len() implies !((#[trigger] head[k]).0 == samples[j].0
        && head[k].1 == samples[j].1) by {
        assert(samples[k] == head[k]);
    }
    lemma_last_exposed_at(head, samples[j].0, samples[j].1, i);
}

/// A clean report means that nothing was reported while the cluster ran.
pub proof fn clean_reports_mean_nothing_was_noticed(c: ClusterState)
    requires
        violations(c).len() == 0,
    ensures
        c.live_violations.len() == 0,
{
    assert(live_violations_lines(c).len() == c.live_violations.len());
}

proof fn lemma_placed_holds(q: Seq<(Ts, Value)>, p: (Ts, Value), x: (Ts, Value))
    ensures
        placed(q, p).contains(x) <==> q.contains(x) || x == p,
    decreases q.len(),
{
    let all = placed(q, p);
    if q.len() == 0 || !earlier(p, q.last()) {
        assert(all[q.len() as int] == p);
        if q.contains(x) {
            let k = choose|k: int| 0 <= k < q.len() && q[k] == x;
            assert(all[k] == x);
        }
    } else {
        let front = q.drop_last();
        let rest = placed(front, p);
        lemma_placed_holds(front, p, x);
        assert(all[rest.len() as int] == q.last());
        if rest.contains(x) {
            let k = choose|k: int| 0 <= k < rest.len() && rest[k] == x;
            assert(all[k] == x);
        }
        if front.contains(x) {
            let k = choose|k: int| 0 <= k < front.len() && front[k] == x;
            assert(q[k] == x);
        }
        if q.contains(x) {
            let k = choose|k: int| 0 <= k < q.len() && q[k] == x;
            if k < front.len() {
                assert(front[k] == x);
            }
        }
        if all.contains(x) {
            let k = choose|k: int| 0 <= k < all.len() && all[k] == x;
            if k < rest.len() {
                assert(rest[k] == x);
            } else {
                assert(q[q.len() - 1] == x);
            }
        }
    }
}

proof fn lemma_series_ordered(history: Seq<TxnState>, key: Key)
    ensures
        by_time(series(history, key)),
    decreases history.len(),
{
    if history.len() > 0 {
        lemma_series_ordered(history.drop_last(), key);
        let t = history.last();
        if t.writes.contains_key(key) {
            lemma_placed(
                series(history.drop_last(), key),
                (t.commit_ts, t.writes[key]),
            );
        }
    }
}

/// The versions of a key are those that were committed, in the order of their
/// timestamps.
pub proof fn series_hold_what_was_committed(history: Seq<TxnState>, key: Key, x: (Ts, Value), a: int, b: int)
    ensures
        series(history, key).contains(x) <==> exists|j: int|
            0 <= j < history.len() && (#[trigger] history[j]).writes.contains_key(key)
                && history[j].commit_ts == x.0 && history[j].writes[key] == x.1,
        0 <= a < b < series(history, key).len() ==> series(history, key)[a].0 <= series(
            history,
            key,
        )[b].0,
    decreases history.len(),
{
    lemma_series_ordered(history, key);
    if history.len() > 0 {
        let front = history.drop_last();
        let n = history.len() - 1;
        let t = history.last();
        assert(history[n] == t);
        series_hold_what_was_committed(front, key, x, a, b);
        if t.writes.contains_key(key) {
            lemma_placed_holds(series(front, key), (t.commit_ts, t.writes[key]), x);
        }
        if series(front, key).contains(x) {
            let j = choose|j: int|
                0 <= j < front.len() && (#[trigger] front[j]).writes.contains_key(key)
                    && front[j].commit_ts == x.0 && front[j].writes[key] == x.1;
            assert(history[j] == front[j]);
        }
        if exists|j: int|
            0 <= j < history.len() && (#[trigger] history[j]).writes.contains_key(key)
                && history[j].commit_ts == x.0 && history[j].writes[key] == x.1 {
            let j = choose|j: int|
                0 <= j < history.len() && (#[trigger] history[j]).writes.contains_key(key)
                    && history[j].commit_ts == x.0 && history[j].writes[key] == x.1;
            if j < n {
                assert(front[j] == history[j]);
            }
        }
    }
}

proof fn lemma_read_listed(t: TxnState, key: Key) -> (k: int)
    requires
        t.reads.dom().finite(),
        t.reads.contains_key(key),
    ensures
        0 <= k < ordered::ascending_u32(t.reads.dom()).len(),
        ordered::ascending_u32(t.reads.dom())[k] == key,
{
    let keys = ordered::ascending_u32(t.reads.dom());
    ordered::lemma_ascending_u32(t.reads.dom());
    assert(keys.to_set().contains(key));
    choose|k: int| 0 <= k < keys.len() && keys[k] == key
}

/// A clean report means that the history is serializable: nothing that a transaction
/// read was overwritten between its snapshot and its commit.
pub proof fn clean_reports_mean_serializable_histories(c: ClusterState, i: int, j: int, key: Key)
    requires
        violations(c).len() == 0,
        0 <= i < c.history.len(),
        0 <= j < c.history.len(),
        c.history[i].reads.dom().finite(),
        c.history[i].reads.contains_key(key),
        c.history[j].writes.contains_key(key),
    ensures
        !(c.history[i].begin_ts < c.history[j].commit_ts < c.history[i].commit_ts),
{
    let h = c.history;
    let t = h[i];
    let f = |i: int| overwrites_of(h, h[i]);
    assert(serializable_lines(c) == flat(h.len(), f));
    lemma_flat_holds(h.len(), f, i);
    let keys = ordered::ascending_u32(t.reads.dom());
    let k = lemma_read_listed(t, key);
    let g = |j: int| overwrites_of_key(h, t, keys[j]);
    assert(overwrites_of(h, t) == flat(keys.len(), g));
    lemma_flat_holds(keys.len(), g, k);
    let q = series(h, key);
    let x = (h[j].commit_ts, h[j].writes[key]);
    series_hold_what_was_committed(h, key, x, 0, 0);
    assert(q.contains(x));
    let m = choose|m: int| 0 <= m < q.len() && q[m] == x;
    let o = |m: int| overwrite_line(t, key, q[m].0);
    assert(overwrites_of_key(h, t, key) == flat(q.len(), o));
    lemma_flat_holds(q.len(), o, m);
}

/// A clean report means that transactions read their snapshots: of a key, the newest
/// value committed by then, and nothing where there was none.
pub proof fn clean_reports_mean_consistent_snapshots(c: ClusterState, i: int, j: int, key: Key)
    requires
        violations(c).len() == 0,
        0 <= i < c.history.len(),
        c.history[i].reads.dom().finite(),
        c.history[i].reads.contains_key(key),
    ensures
        (forall|k: int|
            0 <= k < c.history.len() && (#[trigger] c.history[k]).writes.contains_key(key)
                ==> c.history[k].commit_ts > c.history[i].begin_ts) ==> c.history[i].reads[key] == 0,
        0 <= j < c.history.len() && c.history[j].writes.contains_key(key) && c.history[j].commit_ts
            <= c.history[i].begin_ts && (forall|k: int|
            0 <= k < c.history.len() && k != j && (#[trigger] c.history[k]).writes.contains_key(key)
                ==> c.history[k].commit_ts < c.history[j].commit_ts || c.history[k].commit_ts
                > c.history[i].begin_ts) ==> c.history[i].reads[key] == c.history[j].writes[key],
{
    let h = c.history;
    let t = h[i];
    let ts = t.begin_ts;
    let f = |i: int| misreads_of(h, h[i]);
    assert(snapshot_consistent_lines(c) == flat(h.len(), f));
    lemma_flat_holds(h.len(), f, i);
    let keys = ordered::ascending_u32(t.reads.dom());
    let n = lemma_read_listed(t, key);
    let g = |j: int| misread_line(h, t, keys[j]);
    assert(misreads_of(h, t) == flat(keys.len(), g));
    lemma_flat_holds(keys.len(), g, n);
    let q = series(h, key);
    assert(visible(q, ts) == t.reads[key]);
    lemma_visible(q, ts);
    lemma_series_ordered(h, key);
    if exists|m: int|
        0 <= m < q.len() && (#[trigger] q[m]).0 <= ts && visible(q, ts) == q[m].1 && forall|i: int|
            m < i < q.len() ==> (#[trigger] q[i]).0 > ts {
        let m = choose|m: int|
            0 <= m < q.len() && (#[trigger] q[m]).0 <= ts && visible(q, ts) == q[m].1
                && forall|i: int| m < i < q.len() ==> (#[trigger] q[i]).0 > ts;
        series_hold_what_was_committed(h, key, q[m], 0, 0);
        assert(q.contains(q[m]));
        let k = choose|k: int|
            0 <= k < h.len() && (#[trigger] h[k]).writes.contains_key(key) && h[k].commit_ts
                == q[m].0 && h[k].writes[key] == q[m].1;
        if 0 <= j < h.len() && h[j].writes.contains_key(key) && h[j].commit_ts <= ts && k != j {
            let x = (h[j].commit_ts, h[j].writes[key]);
            series_hold_what_was_committed(h, key, x, 0, 0);
            assert(q.contains(x));
            let y = choose|y: int| 0 <= y < q.len() && q[y] == x;
            assert(y <= m);
            assert(q[y].0 <= q[m].0);
        }
    } else {
        if 0 <= j < h.len() && h[j].writes.contains_key(key) && h[j].commit_ts <= ts {
            let x = (h[j].commit_ts, h[j].writes[key]);
            series_hold_what_was_committed(h, key, x, 0, 0);
            assert(q.contains(x));
            let y = choose|y: int| 0 <= y < q.len() && q[y] == x;
            assert(q[y].0 <= ts);
        }
    }
}

proof fn lemma_written(history: Seq<TxnState>, j: int, key: Key)
    requires
        0 <= j < history.len(),
        history[j].writes.contains_key(key),
        forall|i: int| 0 <= i < history.len() ==> (#[trigger] history[i]).writes.dom().finite(),
    ensures
        written(history).contains(key),
        written(history).finite(),
    decreases history.len(),
{
    lemma_written_finite(history);
    lemma_written_holds(history, j, key);
}

proof fn lemma_written_finite(history: Seq<TxnState>)
    requires
        forall|i: int| 0 <= i < history.len() ==> (#[trigger] history[i]).writes.dom().finite(),
    ensures
        written(history).finite(),
    decreases history.len(),
{
    if history.len() > 0 {
        let front = history.drop_last();
        assert forall|i: int| 0 <= i < front.len() implies (
        #[trigger] front[i]).writes.dom().finite() by {
            assert(history[i] == front[i]);
        }
        lemma_written_finite(front);
        assert(history[history.len() - 1].writes.dom().finite());
    }
}

proof fn lemma_written_holds(history: Seq<TxnState>, j: int, key: Key)
    requires
        0 <= j < history.len(),
        history[j].writes.contains_key(key),
    ensures
        written(history).contains(key),
    decreases history.len(),
{
    if j < history.len() - 1 {
        assert(history.drop_last()[j] == history[j]);
        lemma_written_holds(history.drop_last(), j, key);
    }
}

/// A clean report means that the newest committed write of each key is what its owner
/// holds.
pub proof fn clean_reports_mean_no_lost_writes(c: ClusterState, j: int, key: Key)
    requires
        violations(c).len() == 0,
        0 <= j < c.history.len(),
        c.history[j].writes.contains_key(key),
        forall|i: int|
            0 <= i < c.history.len() ==> (#[trigger] c.history[i]).writes.dom().finite(),
        forall|k: int|
            0 <= k < c.history.len() && k != j && (#[trigger] c.history[k]).writes.contains_key(key)
                ==> c.history[k].commit_ts < c.history[j].commit_ts,
    ensures
        c.latest(key) == Some((c.history[j].commit_ts, c.history[j].writes[key])),
{
    let h = c.history;
    let keys = ordered::ascending_u32(written(h));
    lemma_written(h, j, key);
    ordered::lemma_ascending_u32(written(h));
    assert(keys.to_set().contains(key));
    let n = choose|n: int| 0 <= n < keys.len() && keys[n] == key;
    let f = |j: int| lost_write_line(c, keys[j]);
    assert(no_lost_writes_lines(c) == flat(keys.len(), f));
    lemma_flat_holds(keys.len(), f, n);
    let q = series(h, key);
    let x = (h[j].commit_ts, h[j].writes[key]);
    series_hold_what_was_committed(h, key, x, 0, 0);
    assert(q.contains(x));
    let y = choose|y: int| 0 <= y < q.len() && q[y] == x;
    lemma_series_ordered(h, key);
    assert(q[y].0 <= q[q.len() - 1].0);
    series_hold_what_was_committed(h, key, q.last(), 0, 0);
    assert(q.contains(q[q.len() - 1]));
    let k = choose|k: int|
        0 <= k < h.len() && (#[trigger] h[k]).writes.contains_key(key) && h[k].commit_ts
            == q.last().0 && h[k].writes[key] == q.last().1;
    assert(k == j);
}

proof fn lemma_prepared_counted(c: ClusterState, m: nat, i: int)
    requires
        c.prepared_total(m) == 0,
        0 <= i < m,
    ensures
        c.nodes[i].prepared.dom().len() == 0,
    decreases m,
{
    if i < m - 1 {
        lemma_prepared_counted(c, (m - 1) as nat, i);
    }
}

/// A clean report means that nothing is left prepared on any node.
pub proof fn clean_reports_mean_nothing_is_prepared(c: ClusterState, i: int, txn: u64)
    requires
        violations(c).len() == 0,
        0 <= i < c.num_partitions,
        c.nodes[i].prepared.dom().finite(),
    ensures
        !c.nodes[i].prepared.contains_key(txn),
{
    assert(c.prepared_total(c.num_partitions as nat) == 0);
    lemma_prepared_counted(c, c.num_partitions as nat, i);
    assert(c.nodes[i].prepared.dom().is_empty());
}

/// A clean report means that each subscription to a key that was written later was
/// invalidated.
pub proof fn clean_reports_mean_no_missed_invalidations(c: ClusterState, i: int, j: int, key: Key)
    requires
        violations(c).len() == 0,
        0 <= i < c.subs.len(),
        0 <= j < c.history.len(),
        c.history[j].commit_ts > c.subs[i].registered_ts,
        c.history[j].writes.contains_key(key),
        c.subs[i].read_keys.contains(key),
    ensures
        c.subs[i].invalidated,
{
    let f = |i: int| missed_line(c, i);
    assert(no_missed_invalidations_lines(c) == flat(c.subs.len(), f));
    lemma_flat_holds(c.subs.len(), f, i);
    assert(concerns(c.history[j], c.subs[i]));
}

} // verus!
