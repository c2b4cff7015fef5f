//! Selective delivery: best-effort fanout reduction for replication deltas.
//!
//! Each node says which tables it has live subscriptions for, so that a
//! publisher can send a delta of a user table to the nodes that care about it.
//! This is only an optimization. Interest registrations are soft state: they
//! expire, they are absent until a node first publishes them, and what a
//! publisher knows of them can lag. So they only ever narrow a delivery that
//! the broadcast of every delta already guarantees, and a node whose interest is
//! absent or stale is simply not one of the targets.
use crate::metrics;
use crate::metrics::{Measured, MetricsRecorder};
use crate::names;
use crate::names::TableName;
use crate::partition;
use crate::partition::copy_strings;
use crate::table_set::TableSet;
use crate::text_map;
use crate::text_map::TextMap;
use vstd::prelude::*;
use vstd::string::*;

verus! {

/// The bucket that interest registrations are kept in.
pub const SELECTIVE_DELIVERY_KV_BUCKET: &'static str = "convex_delta_interest";

/// The subjects of single nodes start with this.
pub const NODE_SUBJECT_PREFIX: &'static str = "convex.commits.node";

/// How old a registration may be, in milliseconds.
pub const INTEREST_MAX_AGE_MS: u64 = 90_000;

/// How long the bucket keeps a registration, in milliseconds.
pub const INTEREST_RETENTION_MS: u64 = 360_000;

/// What one node is interested in.
#[derive(Debug)]
pub struct InterestRegistration {
    pub tables: Vec<String>,
    pub updated_at_ms: u64,
}

/// What a registration says.
#[verifier::ext_equal]
pub struct Interest {
    pub tables: Seq<Seq<char>>,
    pub updated_at_ms: u64,
}

impl Interest {
    /// The registration is not too old at `now_ms`. One from the future is new.
    pub open spec fn fresh(self, now_ms: u64) -> bool {
        now_ms - self.updated_at_ms <= INTEREST_MAX_AGE_MS
    }

    /// One of the tables is among `tables`. What is no table name is passed over.
    pub open spec fn covers(self, tables: Set<Seq<char>>) -> bool {
        exists|i: int|
            0 <= i < self.tables.len() && names::is_table_name(#[trigger] self.tables[i])
                && tables.contains(self.tables[i])
    }
}

impl View for InterestRegistration {
    type V = Interest;

    open spec fn view(&self) -> Interest {
        Interest { tables: partition::texts(self.tables@), updated_at_ms: self.updated_at_ms }
    }
}

impl InterestRegistration {
    /// Whether the registration can still be relied on.
    pub fn is_fresh(&self, now_ms: u64) -> (r: bool)
        ensures
            r == self@.fresh(now_ms),
    {
        now_ms <= self.updated_at_ms || now_ms - self.updated_at_ms <= INTEREST_MAX_AGE_MS
    }

    /// Whether the node is interested in any of `tables`.
    pub fn matches(&self, tables: &TableSet) -> (r: bool)
        ensures
            r == self@.covers(tables@),
    {
        let mut i: usize = 0;
        while i < self.tables.len()
            invariant
                i <= self.tables@.len(),
                forall|j: int|
                    0 <= j < i ==> !(names::is_table_name(#[trigger] self@.tables[j])
                        && tables@.contains(self@.tables[j])),
            decreases self.tables@.len() - i,
        {
            assert(self@.tables[i as int] == self.tables@[i as int]@);
            if let Some(table) = TableName::parse(self.tables[i].as_str()) {
                if tables.contains(&table) {
                    return true;
                }
            }
            i += 1;
        }
        false
    }
}

/// What registrations say.
pub open spec fn interests(cache: Map<Seq<char>, InterestRegistration>) -> Map<Seq<char>, Interest> {
    cache.map_values(|r: InterestRegistration| r@)
}

/// A node to send deltas of `tables` to.
pub open spec fn is_target(i: Interest, now_ms: u64, tables: Set<Seq<char>>) -> bool {
    !tables.is_empty() && i.fresh(now_ms) && i.covers(tables)
}

/// Those of `nodes` to send deltas of `tables` to.
pub open spec fn targets_among(
    nodes: Seq<Seq<char>>,
    known: Map<Seq<char>, Interest>,
    now_ms: u64,
    tables: Set<Seq<char>>,
) -> Seq<Seq<char>>
    decreases nodes.len(),
{
    if nodes.len() == 0 {
        Seq::empty()
    } else {
        let rest = targets_among(nodes.drop_last(), known, now_ms, tables);
        if is_target(known[nodes.last()], now_ms, tables) {
            rest.push(nodes.last())
        } else {
            rest
        }
    }
}

/// The nodes to send deltas of `tables` to, ascending.
pub open spec fn targets(known: Map<Seq<char>, Interest>, now_ms: u64, tables: Set<Seq<char>>) -> Seq<
    Seq<char>,
> {
    targets_among(text_map::in_order(known.dom()), known, now_ms, tables)
}

/// The nodes whose registration is too old.
pub open spec fn stale(known: Map<Seq<char>, Interest>, now_ms: u64) -> Set<Seq<char>> {
    Set::new(|n: Seq<char>| known.contains_key(n) && !known[n].fresh(now_ms))
}

/// The nodes to send deltas of `tables` to, ascending.
pub fn interested_nodes_for_tables_from_cache(
    cache: &TextMap<InterestRegistration>,
    now_ms: u64,
    tables: &TableSet,
) -> (r: Vec<String>)
    ensures
        partition::texts(r@) == targets(interests(cache@), now_ms, tables@),
{
    let ghost known = interests(cache@);
    let ghost nodes = text_map::in_order(known.dom());
    let mut r: Vec<String> = Vec::new();
    let n: usize = cache.len();
    let none: bool = tables.is_empty();
    let mut i: usize = 0;
    assert(known.dom() =~= cache@.dom());
    assert(partition::texts(r@) =~= targets_among(nodes.take(0), known, now_ms, tables@));
    while i < n
        invariant
            i <= n,
            n == nodes.len(),
            none == tables@.is_empty(),
            known == interests(cache@),
            known.dom() == cache@.dom(),
            nodes == text_map::in_order(cache@.dom()),
            partition::texts(r@) == targets_among(nodes.take(i as int), known, now_ms, tables@),
        decreases n - i,
    {
        assert(nodes.take(i + 1).drop_last() =~= nodes.take(i as int));
        let node: &String = cache.key_at(i);
        let registration: &InterestRegistration = cache.value_at(i);
        assert(known[nodes[i as int]] == registration@);
        if !none && registration.is_fresh(now_ms) && registration.matches(tables) {
            let ghost before = r@;
            r.push(node.as_str().to_owned());
            assert(partition::texts(r@) =~= partition::texts(before).push(nodes[i as int]));
        }
        i += 1;
    }
    assert(nodes.take(i as int) =~= nodes);
    r
}

/// Which nodes a delta is to be sent to, and how much the publisher knows.
#[derive(Debug)]
pub struct InterestSelection {
    /// The nodes with a fresh registration for one of the tables.
    pub interested: Vec<String>,
    /// How many registrations the publisher knows, fresh or stale.
    pub known_nodes: usize,
    /// How many of them are too old.
    pub stale_nodes: usize,
}

fn count_stale(cache: &TextMap<InterestRegistration>, now_ms: u64) -> (r: usize)
    ensures
        r == stale(interests(cache@), now_ms).len(),
{
    proof {
        cache.lemma_finite();
        text_map::lemma_in_order(cache@.dom());
    }
    let ghost known = interests(cache@);
    let ghost nodes = text_map::in_order(cache@.dom());
    let ghost mut counted: Set<Seq<char>> = Set::empty();
    let n: usize = cache.len();
    let mut count: usize = 0;
    let mut i: usize = 0;
    while i < n
        invariant
            i <= n,
            count <= i,
            n == nodes.len(),
            known == interests(cache@),
            nodes == text_map::in_order(cache@.dom()),
            text_map::ascending(nodes),
            nodes.to_set() == cache@.dom(),
            counted.finite(),
            count == counted.len(),
            forall|x: Seq<char>| #[trigger]
                counted.contains(x) ==> stale(known, now_ms).contains(x) && exists|j: int|
                    0 <= j < i && nodes[j] == x,
            forall|j: int|
                0 <= j < i && stale(known, now_ms).contains(#[trigger] nodes[j])
                    ==> counted.contains(nodes[j]),
        decreases n - i,
    {
        let registration: &InterestRegistration = cache.value_at(i);
        proof {
            let node = nodes[i as int];
            assert(nodes.to_set().contains(node));
            assert(known[node] == registration@);
            if counted.contains(node) {
                let j = choose|j: int| 0 <= j < i && nodes[j] == node;
                assert(crate::text::less(nodes[j], nodes[i as int]));
                crate::text::lemma_less_irreflexive(node);
            }
        }
        if !registration.is_fresh(now_ms) {
            proof {
                counted = counted.insert(nodes[i as int]);
            }
            count += 1;
        }
        i += 1;
    }
    proof {
        assert forall|x: Seq<char>| stale(known, now_ms).contains(x) implies counted.contains(x) by {
            assert(nodes.to_set().contains(x));
            let j = choose|j: int| 0 <= j < nodes.len() && nodes[j] == x;
            assert(stale(known, now_ms).contains(nodes[j]));
        }
        assert(counted =~= stale(known, now_ms));
    }
    count
}

/// Which nodes to send deltas of `tables` to, and how many registrations are
/// known and how many of them are too old.
pub fn interest_selection_from_cache(
    cache: &TextMap<InterestRegistration>,
    now_ms: u64,
    tables: &TableSet,
) -> (r: InterestSelection)
    ensures
        partition::texts(r.interested@) == targets(interests(cache@), now_ms, tables@),
        r.known_nodes == cache@.dom().len(),
        r.stale_nodes == stale(interests(cache@), now_ms).len(),
{
    proof {
        cache.lemma_finite();
        text_map::lemma_in_order(cache@.dom());
    }
    InterestSelection {
        interested: interested_nodes_for_tables_from_cache(cache, now_ms, tables),
        known_nodes: cache.len(),
        stale_nodes: count_stale(cache, now_ms),
    }
}

/// A change of the bucket of registrations.
#[derive(Debug)]
pub enum InterestEvent {
    /// A node's registration was written. It is absent where it could not be
    /// decoded.
    Put { node: String, registration: Option<InterestRegistration> },
    /// A node's registration was deleted or purged.
    Removed { node: String },
}

/// What is known after a change.
pub open spec fn after_event(known: Map<Seq<char>, Interest>, event: InterestEvent) -> Map<Seq<char>, Interest> {
    match event {
        InterestEvent::Put { node, registration } => match registration {
            Some(r) => known.insert(node@, r@),
            None => known,
        },
        InterestEvent::Removed { node } => known.remove(node@),
    }
}

/// The registrations known to a node, and its own name.
#[derive(Debug)]
pub struct SelectiveDeliveryRegistry {
    node_name: String,
    cache: TextMap<InterestRegistration>,
}

/// What a registry says.
#[verifier::ext_equal]
pub struct Registry {
    pub node: Seq<char>,
    pub known: Map<Seq<char>, Interest>,
}

impl View for SelectiveDeliveryRegistry {
    type V = Registry;

    closed spec fn view(&self) -> Registry {
        Registry { node: self.node_name@, known: interests(self.cache@) }
    }
}

/// What is measured when the targets of a delta are chosen: how many registrations
/// are too old, how many are known, and how many of their nodes are interested.
pub open spec fn health_measured(known: Map<Seq<char>, Interest>, now_ms: u64, tables: Set<Seq<char>>) -> Seq<
    Measured,
> {
    seq![
        metrics::gauged(
            "DATABASE_SELECTIVE_DELIVERY_STALE_REGISTRATIONS_INFO"@,
            stale(known, now_ms).len() as int,
            metrics::unlabelled(),
        ),
        metrics::counted(
            "DATABASE_SELECTIVE_DELIVERY_INTEREST_CANDIDATES_TOTAL"@,
            known.dom().len() as int,
            metrics::unlabelled(),
        ),
        metrics::counted(
            "DATABASE_SELECTIVE_DELIVERY_INTEREST_HITS_TOTAL"@,
            targets(known, now_ms, tables).len() as int,
            metrics::unlabelled(),
        ),
    ]
}

/// The subject that reaches one node.
pub open spec fn subject_of(node: Seq<char>) -> Seq<char> {
    NODE_SUBJECT_PREFIX@ + "."@ + node
}

impl SelectiveDeliveryRegistry {
    /// A registry that knows nothing yet.
    pub fn new(node_name: String) -> (r: Self)
        ensures
            r@ == (Registry { node: node_name@, known: Map::empty() }),
    {
        let r = SelectiveDeliveryRegistry { node_name, cache: TextMap::new() };
        assert(r@.known =~= Map::empty());
        r
    }

    /// The name of this node.
    pub fn node_name(&self) -> (r: &str)
        ensures
            r@ == self@.node,
    {
        self.node_name.as_str()
    }

    /// Takes note of a change of the bucket. What cannot be decoded changes
    /// nothing.
    pub fn observe(&mut self, event: InterestEvent)
        ensures
            final(self)@ == (Registry {
                node: old(self)@.node,
                known: after_event(old(self)@.known, event),
            }),
    {
        let ghost before = self.cache@;
        match event {
            InterestEvent::Put { node, registration } => {
                if let Some(registration) = registration {
                    let ghost k = node@;
                    let ghost v = registration@;
                    self.cache.insert(node, registration);
                    assert(interests(self.cache@) =~= interests(before).insert(k, v));
                }
            },
            InterestEvent::Removed { node } => {
                let _ = self.cache.remove(node.as_str());
                assert(interests(self.cache@) =~= interests(before).remove(node@));
            },
        }
    }

    /// What this node registers when it is interested in `tables` at `now_ms`.
    pub fn local_interest(tables: &TableSet, now_ms: u64) -> (r: InterestRegistration)
        ensures
            r@ == (Interest { tables: text_map::in_order(tables@), updated_at_ms: now_ms }),
    {
        let all = tables.tables();
        let mut names: Vec<String> = Vec::new();
        let mut i: usize = 0;
        while i < all.len()
            invariant
                i <= all@.len(),
                names@.len() == i,
                forall|j: int| 0 <= j < i ==> (#[trigger] names@[j])@ == all@[j]@,
            decreases all@.len() - i,
        {
            names.push(all[i].as_str().to_owned());
            i += 1;
        }
        assert(partition::texts(names@) =~= partition::table_texts(all@));
        InterestRegistration { tables: names, updated_at_ms: now_ms }
    }

    /// Takes note of this node's own registration, once it has been published.
    pub fn publish_local_interest(&mut self, registration: &InterestRegistration)
        ensures
            final(self)@ == (Registry {
                node: old(self)@.node,
                known: old(self)@.known.insert(old(self)@.node, registration@),
            }),
    {
        let ghost before = self.cache@;
        let copy = InterestRegistration {
            tables: copy_strings(&registration.tables),
            updated_at_ms: registration.updated_at_ms,
        };
        let ghost v = copy@;
        self.cache.insert(self.node_name.as_str().to_owned(), copy);
        assert(interests(self.cache@) =~= interests(before).insert(self.node_name@, v));
    }

    /// The nodes to send deltas of `tables` to, ascending.
    pub fn interested_nodes_for_tables(&self, now_ms: u64, tables: &TableSet) -> (r: Vec<String>)
        ensures
            partition::texts(r@) == targets(self@.known, now_ms, tables@),
    {
        interested_nodes_for_tables_from_cache(&self.cache, now_ms, tables)
    }

    /// The nodes to send deltas of `tables` to, with how many registrations are
    /// known and how many of them are too old. A stale registration is one that
    /// the publisher can no longer rely on. All three counts are measured.
    pub fn interested_nodes_with_health(
        &self,
        metrics: &mut MetricsRecorder,
        now_ms: u64,
        tables: &TableSet,
    ) -> (r: InterestSelection)
        ensures
            partition::texts(r.interested@) == targets(self@.known, now_ms, tables@),
            r.known_nodes == self@.known.dom().len(),
            r.stale_nodes == stale(self@.known, now_ms).len(),
            final(metrics)@ == old(metrics)@ + health_measured(self@.known, now_ms, tables@),
    {
        assert(self@.known.dom() =~= self.cache@.dom());
        let selection = interest_selection_from_cache(&self.cache, now_ms, tables);
        assert(partition::texts(selection.interested@).len() == selection.interested@.len());
        metrics::log_selective_delivery_stale_registrations(metrics, selection.stale_nodes);
        metrics::log_selective_delivery_interest_hit(
            metrics,
            selection.known_nodes,
            selection.interested.len(),
        );
        assert(metrics@ =~= old(metrics)@ + health_measured(self@.known, now_ms, tables@));
        selection
    }

    /// The subject that reaches one node.
    pub fn node_subject(node_name: &str) -> (r: String)
        ensures
            r@ == subject_of(node_name@),
    {
        let mut s: String = String::new();
        s.append(NODE_SUBJECT_PREFIX);
        s.append(".");
        s.append(node_name);
        assert(s@ =~= subject_of(node_name@));
        s
    }
}

proof fn lemma_targets_among(
    nodes: Seq<Seq<char>>,
    known: Map<Seq<char>, Interest>,
    now_ms: u64,
    tables: Set<Seq<char>>,
    node: Seq<char>,
)
    ensures
        targets_among(nodes, known, now_ms, tables).contains(node) == (nodes.contains(node)
            && is_target(known[node], now_ms, tables)),
    decreases nodes.len(),
{
    let t = targets_among(nodes, known, now_ms, tables);
    if nodes.len() > 0 {
        let rest = nodes.drop_last();
        let r = targets_among(rest, known, now_ms, tables);
        lemma_targets_among(rest, known, now_ms, tables, node);
        assert(nodes =~= rest.push(nodes.last()));
        assert(nodes.contains(node) == (rest.contains(node) || node == nodes.last())) by {
            if rest.contains(node) {
                let j = choose|j: int| 0 <= j < rest.len() && rest[j] == node;
                assert(nodes[j] == node);
            }
            assert(nodes[nodes.len() - 1] == nodes.last());
        }
        if is_target(known[nodes.last()], now_ms, tables) {
            assert(t =~= r.push(nodes.last()));
            assert(t.contains(node) == (r.contains(node) || node == nodes.last())) by {
                if r.contains(node) {
                    let j = choose|j: int| 0 <= j < r.len() && r[j] == node;
                    assert(t[j] == node);
                }
                assert(t[t.len() - 1] == nodes.last());
            }
        }
    }
}

/// A node is a target exactly if its registration is known, fresh, and covers
/// one of the tables: an absent or a stale registration never makes a target.
pub proof fn targets_are_fresh_and_interested(
    known: Map<Seq<char>, Interest>,
    now_ms: u64,
    tables: Set<Seq<char>>,
    node: Seq<char>,
)
    requires
        known.dom().finite(),
    ensures
        targets(known, now_ms, tables).contains(node) == (known.contains_key(node)
            && known[node].fresh(now_ms) && known[node].covers(tables)),
{
    let nodes = text_map::in_order(known.dom());
    text_map::lemma_in_order(known.dom());
    lemma_targets_among(nodes, known, now_ms, tables, node);
    assert(nodes.contains(node) == known.contains_key(node)) by {
        assert(nodes.to_set().contains(node) == nodes.contains(node));
    }
    if known[node].covers(tables) {
        let i = choose|i: int|
            0 <= i < known[node].tables.len() && names::is_table_name(
                #[trigger] known[node].tables[i],
            ) && tables.contains(known[node].tables[i]);
        assert(tables.contains(known[node].tables[i]));
    }
}

/// A registration that covers a table makes its node a target from the moment
/// it is observed until it is too old.
pub proof fn observed_interest_makes_targets(
    known: Map<Seq<char>, Interest>,
    node: Seq<char>,
    interest: Interest,
    now_ms: u64,
    tables: Set<Seq<char>>,
)
    requires
        known.dom().finite(),
        interest.covers(tables),
    ensures
        targets(known.insert(node, interest), now_ms, tables).contains(node) == interest.fresh(now_ms),
{
    targets_are_fresh_and_interested(known.insert(node, interest), now_ms, tables, node);
}

/// Different nodes have different subjects.
pub proof fn node_subjects_differ(a: Seq<char>, b: Seq<char>)
    requires
        subject_of(a) == subject_of(b),
    ensures
        a == b,
{
    let n = (NODE_SUBJECT_PREFIX@ + "."@).len() as int;
    assert(subject_of(a).skip(n) =~= a);
    assert(subject_of(b).skip(n) =~= b);
}

/// A registration counts for a minute and a half from when it was made, and so does
/// one whose clock is ahead.
pub proof fn registrations_age(i: Interest, now_ms: u64)
    ensures
        i.fresh(now_ms) <==> now_ms <= i.updated_at_ms + 90_000,
{
}

/// A registration covers a delta exactly where it lists one of its tables.
pub proof fn registrations_cover_what_they_list(i: Interest, tables: Set<Seq<char>>, t: Seq<char>)
    ensures
        i.covers(tables) ==> exists|k: int|
            0 <= k < i.tables.len() && tables.contains(#[trigger] i.tables[k]),
        i.tables.contains(t) && tables.contains(t) && names::is_table_name(t) ==> i.covers(tables),
{
    if i.tables.contains(t) && tables.contains(t) && names::is_table_name(t) {
        let k = choose|k: int| 0 <= k < i.tables.len() && i.tables[k] == t;
        assert(names::is_table_name(i.tables[k]) && tables.contains(i.tables[k]));
    }
}

/// The registrations that no longer count are those made longer ago.
pub proof fn old_registrations_are_stale(known: Map<Seq<char>, Interest>, now_ms: u64, node: Seq<char>)
    ensures
        stale(known, now_ms).contains(node) <==> known.contains_key(node)
            && known[node].updated_at_ms + 90_000 < now_ms,
{
}

/// Hearing of one node changes what is known of that node alone: its newest
/// registration replaces the one before, one that cannot be read changes nothing,
/// and one that was removed is forgotten.
pub proof fn events_are_about_one_node(
    known: Map<Seq<char>, Interest>,
    event: InterestEvent,
    other: Seq<char>,
)
    ensures
        event matches InterestEvent::Put { node, registration } ==> {
            &&& registration is None ==> after_event(known, event) == known
            &&& registration matches Some(r) ==> after_event(known, event).contains_key(node@)
                && after_event(known, event)[node@].updated_at_ms == r.updated_at_ms
                && after_event(known, event)[node@].tables.len() == r.tables@.len() && forall|i: int|
                0 <= i < r.tables@.len() ==> #[trigger] after_event(known, event)[node@].tables[i]
                    == r.tables@[i]@
            &&& other != node@ ==> (after_event(known, event).contains_key(other)
                <==> known.contains_key(other))
            &&& other != node@ && known.contains_key(other) ==> after_event(known, event)[other]
                == known[other]
        },
        event matches InterestEvent::Removed { node } ==> {
            &&& !after_event(known, event).contains_key(node@)
            &&& other != node@ ==> (after_event(known, event).contains_key(other)
                <==> known.contains_key(other))
            &&& other != node@ && known.contains_key(other) ==> after_event(known, event)[other]
                == known[other]
        },
{
}

proof fn lemma_targets_once(
    nodes: Seq<Seq<char>>,
    known: Map<Seq<char>, Interest>,
    now_ms: u64,
    tables: Set<Seq<char>>,
)
    requires
        text_map::ascending(nodes),
    ensures
        text_map::ascending(targets_among(nodes, known, now_ms, tables)),
        forall|i: int|
            0 <= i < targets_among(nodes, known, now_ms, tables).len() ==> nodes.contains(
                #[trigger] targets_among(nodes, known, now_ms, tables)[i],
            ),
    decreases nodes.len(),
{
    if nodes.len() > 0 {
        let front = nodes.drop_last();
        let n = nodes.len() - 1;
        let rest = targets_among(front, known, now_ms, tables);
        let all = targets_among(nodes, known, now_ms, tables);
        assert(text_map::ascending(front)) by {
            assert forall|i: int, j: int| 0 <= i < j < front.len() implies crate::text::less(
                #[trigger] front[i],
                #[trigger] front[j],
            ) by {
                assert(crate::text::less(nodes[i], nodes[j]));
            }
        }
        lemma_targets_once(front, known, now_ms, tables);
        assert forall|i: int| 0 <= i < rest.len() implies nodes.contains(#[trigger] rest[i])
            && crate::text::less(rest[i], nodes[n]) by {
            assert(front.contains(rest[i]));
            let k = choose|k: int| 0 <= k < front.len() && front[k] == rest[i];
            assert(nodes[k] == rest[i]);
            assert(crate::text::less(nodes[k], nodes[n]));
        }
        assert forall|i: int, j: int| 0 <= i < j < all.len() implies crate::text::less(
            #[trigger] all[i],
            #[trigger] all[j],
        ) by {
            assert(all[i] == rest[i]);
            if j < rest.len() {
                assert(crate::text::less(rest[i], rest[j]));
            }
        }
        assert forall|i: int| 0 <= i < all.len() implies nodes.contains(#[trigger] all[i]) by {
            if i < rest.len() {
                assert(all[i] == rest[i]);
            } else {
                assert(nodes[n] == all[i]);
            }
        }
    }
}

/// No node is a target twice, and they come in the order of their names.
pub proof fn targets_come_once(
    known: Map<Seq<char>, Interest>,
    now_ms: u64,
    tables: Set<Seq<char>>,
    i: int,
    j: int,
)
    requires
        known.dom().finite(),
        0 <= i < j < targets(known, now_ms, tables).len(),
    ensures
        crate::text::less(targets(known, now_ms, tables)[i], targets(known, now_ms, tables)[j]),
        targets(known, now_ms, tables)[i] != targets(known, now_ms, tables)[j],
{
    text_map::lemma_in_order(known.dom());
    lemma_targets_once(text_map::in_order(known.dom()), known, now_ms, tables);
    crate::text::lemma_less_irreflexive(targets(known, now_ms, tables)[i]);
}

/// A node is reached under its own name.
pub proof fn nodes_are_reached_by_name(node: Seq<char>)
    ensures
        subject_of(node) == "convex.commits.node"@ + "."@ + node,
{
}

} // verus!
