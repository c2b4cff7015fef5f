//! Maps and sets with text keys, kept in ascending key order.
use crate::text;
use vstd::prelude::*;
use vstd::string::*;

verus! {

/// `q` is strictly ascending.
pub open spec fn ascending(q: Seq<Seq<char>>) -> bool {
    forall|i: int, j: int| 0 <= i < j < q.len() ==> text::less(#[trigger] q[i], #[trigger] q[j])
}

/// The members of `s` in ascending order.
pub open spec fn in_order(s: Set<Seq<char>>) -> Seq<Seq<char>> {
    choose|q: Seq<Seq<char>>| ascending(q) && #[trigger] q.to_set() == s
}

/// A strictly ascending sequence is determined by its members.
pub proof fn lemma_ascending_unique(a: Seq<Seq<char>>, b: Seq<Seq<char>>)
    requires
        ascending(a),
        ascending(b),
        a.to_set() == b.to_set(),
    ensures
        a == b,
    decreases a.len(),
{
    if a.len() == 0 {
        if b.len() > 0 {
            assert(b.to_set().contains(b[0]));
            assert(a.to_set().contains(b[0]));
        }
        assert(a =~= b);
    } else {
        assert(a.to_set().contains(a.last()));
        assert(b.to_set().contains(a.last()));
        assert(b.to_set().contains(b.last()));
        assert(a.to_set().contains(b.last()));
        let i = choose|i: int| 0 <= i < b.len() && b[i] == a.last();
        let j = choose|j: int| 0 <= j < a.len() && a[j] == b.last();
        assert(a.last() == b.last()) by {
            if i < b.len() - 1 && j < a.len() - 1 {
                assert(text::less(b[i], b[b.len() - 1]));
                assert(text::less(a[j], a[a.len() - 1]));
                text::lemma_less_transitive(a.last(), b.last(), a.last());
                text::lemma_less_irreflexive(a.last());
            }
        }
        let a1 = a.drop_last();
        let b1 = b.drop_last();
        assert forall|x: Seq<char>| a1.to_set().contains(x) == b1.to_set().contains(x) by {
            if a1.to_set().contains(x) {
                let k = choose|k: int| 0 <= k < a1.len() && a1[k] == x;
                assert(a[k] == x);
                assert(text::less(a[k], a[a.len() - 1]));
                text::lemma_less_irreflexive(x);
                assert(a.to_set().contains(x));
                assert(b.to_set().contains(x));
                let m = choose|m: int| 0 <= m < b.len() && b[m] == x;
                assert(m < b.len() - 1);
                assert(b1[m] == x);
            }
            if b1.to_set().contains(x) {
                let k = choose|k: int| 0 <= k < b1.len() && b1[k] == x;
                assert(b[k] == x);
                assert(text::less(b[k], b[b.len() - 1]));
                text::lemma_less_irreflexive(x);
                assert(b.to_set().contains(x));
                assert(a.to_set().contains(x));
                let m = choose|m: int| 0 <= m < a.len() && a[m] == x;
                assert(m < a.len() - 1);
                assert(a1[m] == x);
            }
        }
        assert(a1.to_set() =~= b1.to_set());
        assert(ascending(a1)) by {
            assert forall|i: int, j: int| 0 <= i < j < a1.len() implies text::less(
                #[trigger] a1[i],
                #[trigger] a1[j],
            ) by {
                assert(text::less(a[i], a[j]));
            }
        }
        assert(ascending(b1)) by {
            assert forall|i: int, j: int| 0 <= i < j < b1.len() implies text::less(
                #[trigger] b1[i],
                #[trigger] b1[j],
            ) by {
                assert(text::less(b[i], b[j]));
            }
        }
        lemma_ascending_unique(a1, b1);
        assert(a =~= a1.push(a.last()));
        assert(b =~= b1.push(b.last()));
    }
}

spec fn keys_of<V>(q: Seq<(String, V)>) -> Seq<Seq<char>> {
    q.map_values(|e: (String, V)| e.0@)
}

/// A map from texts to values, in ascending order of the texts.
#[derive(Debug)]
pub struct TextMap<V> {
    entries: Vec<(String, V)>,
}

impl<V> View for TextMap<V> {
    type V = Map<Seq<char>, V>;

    closed spec fn view(&self) -> Map<Seq<char>, V> {
        view_of(self.entries@)
    }
}

/// The entry of a key is the one at its position.
proof fn lemma_lookup<V>(q: Seq<(String, V)>, i: int)
    requires
        ascending(keys_of(q)),
        0 <= i < q.len(),
    ensures
        keys_of(q).contains(q[i].0@),
        keys_of(q).index_of(q[i].0@) == i,
{
    let k = keys_of(q);
    assert(k[i] == q[i].0@);
    let j = k.index_of(q[i].0@);
    assert(0 <= j < k.len() && k[j] == k[i]);
    if j < i {
        assert(text::less(k[j], k[i]));
        text::lemma_less_irreflexive(k[i]);
    }
    if i < j {
        assert(text::less(k[i], k[j]));
        text::lemma_less_irreflexive(k[i]);
    }
}

impl<V> TextMap<V> {
    #[verifier::type_invariant]
    spec fn is_sorted(self) -> bool {
        ascending(keys_of(self.entries@))
    }

    /// There are finitely many keys.
    pub proof fn lemma_finite(&self)
        ensures
            self@.dom().finite(),
    {
        assert(keys_of(self.entries@).to_set() =~= self@.dom());
    }

    pub fn new() -> (r: Self)
        ensures
            r@ == Map::<Seq<char>, V>::empty(),
    {
        let r = TextMap { entries: Vec::new() };
        assert(r@ =~= Map::<Seq<char>, V>::empty());
        r
    }

    /// Where `key` is, or where it would go.
    fn position(&self, key: &str) -> (r: (bool, usize))
        ensures
            r.1 <= self.entries@.len(),
            r.0 ==> r.1 < self.entries@.len() && self.entries@[r.1 as int].0@ == key@,
            !r.0 ==> !keys_of(self.entries@).contains(key@),
            forall|i: int| 0 <= i < r.1 ==> text::less((#[trigger] self.entries@[i]).0@, key@),
            forall|i: int|
                r.1 <= i < self.entries@.len() && !(r.0 && i == r.1) ==> text::less(
                    key@,
                    (#[trigger] self.entries@[i]).0@,
                ),
    {
        proof {
            use_type_invariant(self);
        }
        let ghost k = keys_of(self.entries@);
        let mut i: usize = 0;
        while i < self.entries.len() && text::is_less(self.entries[i].0.as_str(), key)
            invariant
                i <= self.entries@.len(),
                forall|j: int| 0 <= j < i ==> text::less((#[trigger] self.entries@[j]).0@, key@),
            decreases self.entries@.len() - i,
        {
            i = i + 1;
        }
        if i == self.entries.len() {
            proof {
                if k.contains(key@) {
                    let j = choose|j: int| 0 <= j < k.len() && k[j] == key@;
                    assert(text::less(self.entries@[j].0@, key@));
                    text::lemma_less_irreflexive(key@);
                }
            }
            return (false, i);
        }
        let found: bool = text::same(self.entries[i].0.as_str(), key);
        proof {
            let here = self.entries@[i as int].0@;
            text::lemma_less_total(here, key@);
            assert forall|j: int|
                i <= j < self.entries@.len() && !(found && j == i) implies text::less(
                key@,
                (#[trigger] self.entries@[j]).0@,
            ) by {
                if j > i {
                    assert(text::less(k[i as int], k[j]));
                    if !found {
                        text::lemma_less_transitive(key@, here, self.entries@[j].0@);
                    }
                }
            }
            if !found && k.contains(key@) {
                let j = choose|j: int| 0 <= j < k.len() && k[j] == key@;
                text::lemma_less_irreflexive(key@);
                if j < i {
                    assert(text::less(self.entries@[j].0@, key@));
                } else {
                    assert(text::less(key@, self.entries@[j].0@));
                }
            }
        }
        (found, i)
    }

    pub fn get(&self, key: &str) -> (r: Option<&V>)
        ensures
            match r {
                Some(v) => self@.contains_key(key@) && *v == self@[key@],
                None => !self@.contains_key(key@),
            },
    {
        proof {
            use_type_invariant(self);
        }
        let (found, i) = self.position(key);
        if found {
            proof {
                lemma_lookup(self.entries@, i as int);
            }
            Some(&self.entries[i].1)
        } else {
            None
        }
    }

    pub fn contains_key(&self, key: &str) -> (r: bool)
        ensures
            r == self@.contains_key(key@),
    {
        self.get(key).is_some()
    }

    /// Maps `key` to `value`, in place of what it was mapped to.
    pub fn insert(&mut self, key: String, value: V)
        ensures
            final(self)@ == old(self)@.insert(key@, value),
    {
        proof {
            use_type_invariant(&*self);
        }
        let (found, i) = self.position(key.as_str());
        let ghost k = key@;
        let ghost before = self.entries@;
        let mut entries: Vec<(String, V)> = Vec::new();
        std::mem::swap(&mut entries, &mut self.entries);
        if found {
            proof {
                lemma_lookup(before, i as int);
            }
            entries.set(i, (key, value));
            proof {
                assert(keys_of(entries@) =~= keys_of(before));
            }
        } else {
            entries.insert(i, (key, value));
            proof {
                lemma_inserted(before, entries@, i as int, k);
            }
        }
        let ghost after = entries@;
        self.entries = entries;
        proof {
            lemma_insert_view(before, after, found, i as int, k, value);
            assert(self@ =~= old(self)@.insert(k, value));
        }
    }

    /// Takes `key` out and returns what it was mapped to.
    pub fn remove(&mut self, key: &str) -> (r: Option<V>)
        ensures
            final(self)@ == old(self)@.remove(key@),
            match r {
                Some(v) => old(self)@.contains_key(key@) && v == old(self)@[key@],
                None => !old(self)@.contains_key(key@),
            },
    {
        proof {
            use_type_invariant(&*self);
        }
        let (found, i) = self.position(key);
        if !found {
            assert(self@ =~= self@.remove(key@));
            return None;
        }
        let ghost before = self.entries@;
        let mut entries: Vec<(String, V)> = Vec::new();
        std::mem::swap(&mut entries, &mut self.entries);
        let (_, value) = entries.remove(i);
        let ghost after = entries@;
        proof {
            lemma_lookup(before, i as int);
            assert(ascending(keys_of(after))) by {
                let p = keys_of(before);
                let q = keys_of(after);
                assert forall|a: int, b: int| 0 <= a < b < q.len() implies text::less(
                    #[trigger] q[a],
                    #[trigger] q[b],
                ) by {
                    let x = if a < i {
                        a
                    } else {
                        a + 1
                    };
                    let y = if b < i {
                        b
                    } else {
                        b + 1
                    };
                    assert(q[a] == p[x] && q[b] == p[y]);
                    assert(text::less(p[x], p[y]));
                }
            }
        }
        self.entries = entries;
        proof {
            lemma_remove_view(before, after, i as int);
            assert(self@ =~= old(self)@.remove(key@));
        }
        Some(value)
    }

    pub fn len(&self) -> (r: usize)
        ensures
            r == in_order(self@.dom()).len(),
    {
        proof {
            use_type_invariant(self);
            lemma_order(self.entries@);
        }
        self.entries.len()
    }

    pub fn is_empty(&self) -> (r: bool)
        ensures
            r == self@.dom().is_empty(),
    {
        proof {
            use_type_invariant(self);
            lemma_order(self.entries@);
            if self.entries@.len() == 0 {
                assert(self@.dom() =~= Set::empty());
            } else {
                assert(keys_of(self.entries@).contains(keys_of(self.entries@)[0]));
                assert(self@.dom().contains(keys_of(self.entries@)[0]));
            }
        }
        self.entries.len() == 0
    }

    /// The key at position `i` of the order.
    pub fn key_at(&self, i: usize) -> (r: &String)
        requires
            i < in_order(self@.dom()).len(),
        ensures
            r@ == in_order(self@.dom())[i as int],
            self@.contains_key(r@),
    {
        proof {
            use_type_invariant(self);
            lemma_order(self.entries@);
            assert(keys_of(self.entries@)[i as int] == self.entries@[i as int].0@);
            lemma_lookup(self.entries@, i as int);
        }
        &self.entries[i].0
    }

    /// The value at position `i` of the order.
    pub fn value_at(&self, i: usize) -> (r: &V)
        requires
            i < in_order(self@.dom()).len(),
        ensures
            *r == self@[in_order(self@.dom())[i as int]],
    {
        proof {
            use_type_invariant(self);
            lemma_order(self.entries@);
            assert(keys_of(self.entries@)[i as int] == self.entries@[i as int].0@);
            lemma_lookup(self.entries@, i as int);
        }
        &self.entries[i].1
    }
}

/// The keys are in ascending order, and they are the domain.
proof fn lemma_order<V>(q: Seq<(String, V)>)
    requires
        ascending(keys_of(q)),
    ensures
        in_order(view_of(q).dom()) == keys_of(q),
{
    let k = keys_of(q);
    assert(k.to_set() =~= view_of(q).dom());
    assert(ascending(k) && k.to_set() == view_of(q).dom());
    lemma_ascending_unique(k, in_order(view_of(q).dom()));
}

proof fn lemma_inserted<V>(
    before: Seq<(String, V)>,
    after: Seq<(String, V)>,
    i: int,
    key: Seq<char>,
)
    requires
        ascending(keys_of(before)),
        0 <= i <= before.len(),
        after.len() == before.len() + 1,
        after[i].0@ == key,
        after =~= before.insert(i, after[i]),
        forall|j: int| 0 <= j < i ==> text::less((#[trigger] before[j]).0@, key),
        forall|j: int| i <= j < before.len() ==> text::less(key, (#[trigger] before[j]).0@),
    ensures
        ascending(keys_of(after)),
{
    let p = keys_of(before);
    let q = keys_of(after);
    assert forall|a: int, b: int| 0 <= a < b < q.len() implies text::less(
        #[trigger] q[a],
        #[trigger] q[b],
    ) by {
        if a == i {
            assert(q[b] == before[b - 1].0@);
        } else if b == i {
            assert(q[a] == before[a].0@);
        } else {
            let x = if a < i {
                a
            } else {
                a - 1
            };
            let y = if b < i {
                b
            } else {
                b - 1
            };
            assert(q[a] == p[x] && q[b] == p[y]);
            assert(text::less(p[x], p[y]));
        }
    }
}

spec fn view_of<V>(q: Seq<(String, V)>) -> Map<Seq<char>, V> {
    Map::new(
        |k: Seq<char>| keys_of(q).contains(k),
        |k: Seq<char>| q[keys_of(q).index_of(k)].1,
    )
}

proof fn lemma_insert_view<V>(
    before: Seq<(String, V)>,
    after: Seq<(String, V)>,
    found: bool,
    i: int,
    key: Seq<char>,
    value: V,
)
    requires
        ascending(keys_of(before)),
        ascending(keys_of(after)),
        found ==> 0 <= i < before.len() && before[i].0@ == key && after.len() == before.len()
            && after[i].0@ == key && after[i].1 == value && after =~= before.update(i, after[i]),
        !found ==> 0 <= i <= before.len() && after.len() == before.len() + 1 && after[i].0@ == key
            && after[i].1 == value && after =~= before.insert(i, after[i]),
    ensures
        view_of(after) =~= view_of(before).insert(key, value),
{
    let p = keys_of(before);
    let q = keys_of(after);
    assert forall|k: Seq<char>| #[trigger] q.contains(k) == (p.contains(k) || k == key) by {
        if q.contains(k) {
            let a = choose|a: int| 0 <= a < q.len() && q[a] == k;
            if a != i {
                let x = if found || a < i {
                    a
                } else {
                    a - 1
                };
                assert(p[x] == k);
            }
        }
        if p.contains(k) {
            let a = choose|a: int| 0 <= a < p.len() && p[a] == k;
            let x = if found || a < i {
                a
            } else {
                a + 1
            };
            assert(q[x] == k);
        }
        assert(q[i] == key);
    }
    assert forall|k: Seq<char>| q.contains(k) implies #[trigger] view_of(after)[k]
        == view_of(before).insert(key, value)[k] by {
        let a = choose|a: int| 0 <= a < q.len() && q[a] == k;
        lemma_lookup(after, a);
        if a == i {
        } else {
            let x = if found || a < i {
                a
            } else {
                a - 1
            };
            lemma_lookup(after, i);
            assert(p[x] == k);
            lemma_lookup(before, x);
            assert(k != key) by {
                if k == key {
                    assert(q.index_of(k) == a);
                    assert(q.index_of(k) == i);
                }
            }
        }
    }
}

proof fn lemma_remove_view<V>(before: Seq<(String, V)>, after: Seq<(String, V)>, i: int)
    requires
        ascending(keys_of(before)),
        ascending(keys_of(after)),
        0 <= i < before.len(),
        after =~= before.remove(i),
    ensures
        view_of(after) =~= view_of(before).remove(before[i].0@),
{
    let p = keys_of(before);
    let q = keys_of(after);
    let key = before[i].0@;
    lemma_lookup(before, i);
    assert forall|k: Seq<char>| #[trigger] q.contains(k) == (p.contains(k) && k != key) by {
        if q.contains(k) {
            let a = choose|a: int| 0 <= a < q.len() && q[a] == k;
            let x = if a < i {
                a
            } else {
                a + 1
            };
            assert(p[x] == k);
            lemma_lookup(before, x);
        }
        if p.contains(k) && k != key {
            let a = choose|a: int| 0 <= a < p.len() && p[a] == k;
            let x = if a < i {
                a
            } else {
                a - 1
            };
            assert(a != i);
            assert(q[x] == k);
        }
    }
    assert forall|k: Seq<char>| q.contains(k) implies #[trigger] view_of(after)[k] == view_of(
        before,
    ).remove(key)[k] by {
        let a = choose|a: int| 0 <= a < q.len() && q[a] == k;
        lemma_lookup(after, a);
        let x = if a < i {
            a
        } else {
            a + 1
        };
        assert(p[x] == k);
        lemma_lookup(before, x);
    }
}

/// A set of texts in ascending order.
#[derive(Debug)]
pub struct TextSet {
    members: TextMap<()>,
}

impl View for TextSet {
    type V = Set<Seq<char>>;

    closed spec fn view(&self) -> Set<Seq<char>> {
        self.members@.dom()
    }
}

impl TextSet {
    /// There are finitely many members.
    pub proof fn lemma_finite(&self)
        ensures
            self@.finite(),
    {
        self.members.lemma_finite();
    }

    pub fn new() -> (r: Self)
        ensures
            r@ == Set::<Seq<char>>::empty(),
    {
        let r = TextSet { members: TextMap::new() };
        assert(r@ =~= Set::<Seq<char>>::empty());
        r
    }

    pub fn insert(&mut self, member: String)
        ensures
            final(self)@ == old(self)@.insert(member@),
    {
        self.members.insert(member, ());
        assert(self@ =~= old(self)@.insert(member@));
    }

    pub fn contains(&self, member: &str) -> (r: bool)
        ensures
            r == self@.contains(member@),
    {
        self.members.contains_key(member)
    }

    pub fn len(&self) -> (r: usize)
        ensures
            r == in_order(self@).len(),
    {
        self.members.len()
    }

    pub fn is_empty(&self) -> (r: bool)
        ensures
            r == self@.is_empty(),
    {
        self.members.is_empty()
    }

    /// The member at position `i` of the order.
    pub fn at(&self, i: usize) -> (r: &String)
        requires
            i < in_order(self@).len(),
        ensures
            r@ == in_order(self@)[i as int],
            self@.contains(r@),
    {
        self.members.key_at(i)
    }
}

/// A finite set of texts has an enumeration in ascending order.
pub proof fn lemma_in_order(s: Set<Seq<char>>)
    requires
        s.finite(),
    ensures
        ascending(in_order(s)),
        in_order(s).to_set() == s,
        in_order(s).len() == s.len(),
    decreases s.len(),
{
    lemma_has_order(s);
    let q = in_order(s);
    assert(q.no_duplicates()) by {
        assert forall|i: int, j: int| 0 <= i < q.len() && 0 <= j < q.len() && i != j implies q[i]
            != q[j] by {
            text::lemma_less_irreflexive(q[i]);
            if i < j {
                assert(text::less(q[i], q[j]));
            } else {
                assert(text::less(q[j], q[i]));
            }
        }
    }
    q.unique_seq_to_set();
}

proof fn lemma_has_order(s: Set<Seq<char>>)
    requires
        s.finite(),
    ensures
        ascending(in_order(s)),
        in_order(s).to_set() == s,
    decreases s.len(),
{
    if s.len() == 0 {
        let q = Seq::<Seq<char>>::empty();
        assert(q.to_set() =~= s);
        assert(ascending(q) && q.to_set() == s);
    } else {
        let m = lemma_greatest(s);
        let rest = s.remove(m);
        lemma_has_order(rest);
        let p = in_order(rest);
        let q = p.push(m);
        assert forall|i: int, j: int| 0 <= i < j < q.len() implies text::less(
            #[trigger] q[i],
            #[trigger] q[j],
        ) by {
            if j < p.len() {
                assert(text::less(p[i], p[j]));
            } else {
                assert(p.to_set().contains(p[i]));
                assert(rest.contains(p[i]));
            }
        }
        assert forall|x: Seq<char>| q.to_set().contains(x) == s.contains(x) by {
            if s.contains(x) {
                if x == m {
                    assert(q[p.len() as int] == x);
                } else {
                    assert(p.to_set().contains(x));
                    let k = choose|k: int| 0 <= k < p.len() && p[k] == x;
                    assert(q[k] == x);
                }
            }
            if q.to_set().contains(x) {
                let k = choose|k: int| 0 <= k < q.len() && q[k] == x;
                if k < p.len() {
                    assert(p.to_set().contains(p[k]));
                }
            }
        }
        assert(q.to_set() =~= s);
        assert(ascending(q) && q.to_set() == s);
    }
}

/// A finite set of texts that is not empty has a last member.
proof fn lemma_greatest(s: Set<Seq<char>>) -> (m: Seq<char>)
    requires
        s.finite(),
        s.len() > 0,
    ensures
        s.contains(m),
        forall|x: Seq<char>| s.contains(x) && x != m ==> text::less(x, m),
    decreases s.len(),
{
    let a = s.choose();
    if s.len() == 1 {
        assert forall|x: Seq<char>| s.contains(x) && x != a implies text::less(x, a) by {
            assert(s.remove(a).len() == 0);
            assert(s.remove(a).contains(x));
        }
        a
    } else {
        let b = lemma_greatest(s.remove(a));
        text::lemma_less_total(a, b);
        if text::less(a, b) {
            assert forall|x: Seq<char>| s.contains(x) && x != b implies text::less(x, b) by {
                if x != a {
                    assert(s.remove(a).contains(x));
                }
            }
            b
        } else {
            assert forall|x: Seq<char>| s.contains(x) && x != a implies text::less(x, a) by {
                assert(s.remove(a).contains(x));
                if x != b {
                    text::lemma_less_transitive(x, b, a);
                }
            }
            a
        }
    }
}

} // verus!
