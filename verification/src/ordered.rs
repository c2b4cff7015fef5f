//! Walking ordered maps and sets with integer keys in ascending key order.
use std::collections::{BTreeMap, BTreeSet};
use vstd::prelude::*;

verus! {

broadcast use {vstd::std_specs::btree::group_btree_axioms, vstd::laws_cmp::group_laws_cmp};

/// `q` is strictly ascending.
pub open spec fn sorted_u32(q: Seq<u32>) -> bool {
    forall|i: int, j: int| 0 <= i < j < q.len() ==> q[i] < q[j]
}

/// The members of `s` in ascending order.
pub open spec fn ascending_u32(s: Set<u32>) -> Seq<u32> {
    choose|q: Seq<u32>| sorted_u32(q) && #[trigger] q.to_set() == s
}

/// `m` is the greatest member of `s`.
pub open spec fn is_greatest_u32(s: Set<u32>, m: u32) -> bool {
    s.contains(m) && forall|x: u32| s.contains(x) ==> x <= m
}

/// The greatest member of `s`.
pub open spec fn greatest_u32(s: Set<u32>) -> u32 {
    choose|m: u32| is_greatest_u32(s, m)
}

/// `m` is the least member of `s`.
pub open spec fn is_least_u32(s: Set<u32>, m: u32) -> bool {
    s.contains(m) && forall|x: u32| s.contains(x) ==> m <= x
}

/// The least member of `s`.
pub open spec fn least_u32(s: Set<u32>) -> u32 {
    choose|m: u32| is_least_u32(s, m)
}

/// A strictly ascending sequence is determined by its members.
pub proof fn lemma_sorted_unique_u32(a: Seq<u32>, b: Seq<u32>)
    requires
        sorted_u32(a),
        sorted_u32(b),
        a.to_set() == b.to_set(),
    ensures
        a == b,
    decreases a.len(),
{
    if a.len() == 0 {
        if b.len() > 0 {
            assert(b.to_set().contains(b[0]));
            assert(a.to_set().contains(b[0]));
        }
        assert(a =~= b);
    } else {
        assert(a.to_set().contains(a.last()));
        assert(b.to_set().contains(a.last()));
        assert(b.to_set().contains(b.last()));
        assert(a.to_set().contains(b.last()));
        let i = choose|i: int| 0 <= i < b.len() && b[i] == a.last();
        let j = choose|j: int| 0 <= j < a.len() && a[j] == b.last();
        assert(a.last() == b.last());
        let a1 = a.drop_last();
        let b1 = b.drop_last();
        assert forall|x: u32| a1.to_set().contains(x) == b1.to_set().contains(x) by {
            if a1.to_set().contains(x) {
                let k = choose|k: int| 0 <= k < a1.len() && a1[k] == x;
                assert(a[k] == x);
                assert(a.to_set().contains(x));
                assert(b.to_set().contains(x));
                let m = choose|m: int| 0 <= m < b.len() && b[m] == x;
                assert(m < b.len() - 1);
                assert(b1[m] == x);
            }
            if b1.to_set().contains(x) {
                let k = choose|k: int| 0 <= k < b1.len() && b1[k] == x;
                assert(b[k] == x);
                assert(b.to_set().contains(x));
                assert(a.to_set().contains(x));
                let m = choose|m: int| 0 <= m < a.len() && a[m] == x;
                assert(m < a.len() - 1);
                assert(a1[m] == x);
            }
        }
        assert(a1.to_set() =~= b1.to_set());
        lemma_sorted_unique_u32(a1, b1);
        assert(a =~= a1.push(a.last()));
        assert(b =~= b1.push(b.last()));
    }
}

/// Every finite set has an ascending enumeration.
pub proof fn lemma_ascending_u32(s: Set<u32>)
    requires
        s.finite(),
    ensures
        sorted_u32(ascending_u32(s)),
        ascending_u32(s).to_set() == s,
    decreases s.len(),
{
    if s.len() == 0 {
        let q = Seq::<u32>::empty();
        assert(q.to_set() =~= s);
        assert(sorted_u32(q) && q.to_set() == s);
    } else {
        let m = lemma_greatest_u32(s);
        lemma_ascending_u32(s.remove(m));
        let p = ascending_u32(s.remove(m));
        let q = p.push(m);
        assert forall|i: int, j: int| 0 <= i < j < q.len() implies q[i] < q[j] by {
            assert(p.to_set().contains(p[i]));
            assert(s.contains(p[i]));
        }
        assert forall|x: u32| q.to_set().contains(x) == s.contains(x) by {
            if s.contains(x) {
                if x == m {
                    assert(q[p.len() as int] == x);
                } else {
                    assert(p.to_set().contains(x));
                    let k = choose|k: int| 0 <= k < p.len() && p[k] == x;
                    assert(q[k] == x);
                }
            }
            if q.to_set().contains(x) {
                let k = choose|k: int| 0 <= k < q.len() && q[k] == x;
                if k < p.len() {
                    assert(p.to_set().contains(p[k]));
                }
            }
        }
        assert(q.to_set() =~= s);
        assert(sorted_u32(q) && q.to_set() == s);
    }
}

/// A finite set that is not empty has a greatest member.
pub proof fn lemma_greatest_u32(s: Set<u32>) -> (m: u32)
    requires
        s.finite(),
        s.len() > 0,
    ensures
        is_greatest_u32(s, m),
        greatest_u32(s) == m,
    decreases s.len(),
{
    let a = s.choose();
    if s.len() == 1 {
        assert forall|x: u32| s.contains(x) implies x <= a by {
            if x != a {
                assert(s.remove(a).contains(x));
                assert(s.remove(a).len() == 0);
            }
        }
        assert(is_greatest_u32(s, a));
        a
    } else {
        let b = lemma_greatest_u32(s.remove(a));
        if a <= b {
            assert forall|x: u32| s.contains(x) implies x <= b by {
                if x != a {
                    assert(s.remove(a).contains(x));
                }
            }
            assert(is_greatest_u32(s, b));
            b
        } else {
            assert forall|x: u32| s.contains(x) implies x <= a by {
                if x != a {
                    assert(s.remove(a).contains(x));
                }
            }
            assert(is_greatest_u32(s, a));
            a
        }
    }
}

/// The first of the ascending members is the least, the last the greatest.
pub proof fn lemma_ends_u32(q: Seq<u32>, s: Set<u32>)
    requires
        sorted_u32(q),
        q.to_set() == s,
        q.len() > 0,
    ensures
        is_least_u32(s, q[0]),
        least_u32(s) == q[0],
        is_greatest_u32(s, q.last()),
        greatest_u32(s) == q.last(),
{
    assert(q.to_set().contains(q[0]));
    assert(q.to_set().contains(q.last()));
    assert forall|x: u32| s.contains(x) implies q[0] <= x && x <= q.last() by {
        assert(q.to_set().contains(x));
        let k = choose|k: int| 0 <= k < q.len() && q[k] == x;
        assert(q[k] == x);
    }
    assert(is_least_u32(s, q[0]));
    assert(is_greatest_u32(s, q.last()));
}

proof fn lemma_increasing_u32(q: Seq<&u32>)
    requires
        vstd::std_specs::btree::increasing_seq(q),
    ensures
        sorted_u32(q.unref()),
{
    assert(vstd::laws_cmp::obeys_cmp::<&u32>());
    assert forall|i: int, j: int| 0 <= i < j < q.unref().len() implies q.unref()[i]
        < q.unref()[j] by {
        assert(vstd::std_specs::cmp::OrdSpec::cmp_spec(&q[i], &q[j]) is Less);
    }
}

/// The keys of `m` in ascending order.
pub fn keys_u32<V>(m: &BTreeMap<u32, V>) -> (r: Vec<u32>)
    ensures
        r@ == ascending_u32(m@.dom()),
        sorted_u32(r@),
        r@.to_set() == m@.dom(),
{
    let mut r: Vec<u32> = Vec::new();
    for k in it: m.keys()
        invariant
            r@ == it.seq().unref().take(it.index() as int),
    {
        proof {
            assert(it.seq().unref().take(it.index() as int + 1) =~= it.seq().unref().take(
                it.index() as int,
            ).push(*k));
        }
        r.push(*k);
    }
    proof {
        let q = vstd::std_specs::iter::IteratorSpec::remaining(
            &vstd::std_specs::btree::spec_keys_iter(m),
        );
        assert(r@ =~= q.unref());
        lemma_increasing_u32(q);
        lemma_sorted_unique_u32(r@, ascending_u32(m@.dom()));
    }
    r
}

/// The members of `s` in ascending order.
pub fn members_u32(s: &BTreeSet<u32>) -> (r: Vec<u32>)
    ensures
        r@ == ascending_u32(s@),
        sorted_u32(r@),
        r@.to_set() == s@,
{
    let mut r: Vec<u32> = Vec::new();
    for k in it: s.iter()
        invariant
            r@ == it.seq().unref().take(it.index() as int),
    {
        proof {
            assert(it.seq().unref().take(it.index() as int + 1) =~= it.seq().unref().take(
                it.index() as int,
            ).push(*k));
        }
        r.push(*k);
    }
    proof {
        let q = vstd::std_specs::iter::IteratorSpec::remaining(
            &vstd::std_specs::btree::spec_btree_keys_iter(s),
        );
        assert(r@ =~= q.unref());
        lemma_increasing_u32(q);
        lemma_sorted_unique_u32(r@, ascending_u32(s@));
    }
    r
}

/// `q` is strictly ascending.
pub open spec fn sorted_u64(q: Seq<u64>) -> bool {
    forall|i: int, j: int| 0 <= i < j < q.len() ==> q[i] < q[j]
}

/// The members of `s` in ascending order.
pub open spec fn ascending_u64(s: Set<u64>) -> Seq<u64> {
    choose|q: Seq<u64>| sorted_u64(q) && #[trigger] q.to_set() == s
}

/// `m` is the greatest member of `s`.
pub open spec fn is_greatest_u64(s: Set<u64>, m: u64) -> bool {
    s.contains(m) && forall|x: u64| s.contains(x) ==> x <= m
}

/// The greatest member of `s`.
pub open spec fn greatest_u64(s: Set<u64>) -> u64 {
    choose|m: u64| is_greatest_u64(s, m)
}

/// `m` is the least member of `s`.
pub open spec fn is_least_u64(s: Set<u64>, m: u64) -> bool {
    s.contains(m) && forall|x: u64| s.contains(x) ==> m <= x
}

/// The least member of `s`.
pub open spec fn least_u64(s: Set<u64>) -> u64 {
    choose|m: u64| is_least_u64(s, m)
}

/// A strictly ascending sequence is determined by its members.
pub proof fn lemma_sorted_unique_u64(a: Seq<u64>, b: Seq<u64>)
    requires
        sorted_u64(a),
        sorted_u64(b),
        a.to_set() == b.to_set(),
    ensures
        a == b,
    decreases a.len(),
{
    if a.len() == 0 {
        if b.len() > 0 {
            assert(b.to_set().contains(b[0]));
            assert(a.to_set().contains(b[0]));
        }
        assert(a =~= b);
    } else {
        assert(a.to_set().contains(a.last()));
        assert(b.to_set().contains(a.last()));
        assert(b.to_set().contains(b.last()));
        assert(a.to_set().contains(b.last()));
        let i = choose|i: int| 0 <= i < b.len() && b[i] == a.last();
        let j = choose|j: int| 0 <= j < a.len() && a[j] == b.last();
        assert(a.last() == b.last());
        let a1 = a.drop_last();
        let b1 = b.drop_last();
        assert forall|x: u64| a1.to_set().contains(x) == b1.to_set().contains(x) by {
            if a1.to_set().contains(x) {
                let k = choose|k: int| 0 <= k < a1.len() && a1[k] == x;
                assert(a[k] == x);
                assert(a.to_set().contains(x));
                assert(b.to_set().contains(x));
                let m = choose|m: int| 0 <= m < b.len() && b[m] == x;
                assert(m < b.len() - 1);
                assert(b1[m] == x);
            }
            if b1.to_set().contains(x) {
                let k = choose|k: int| 0 <= k < b1.len() && b1[k] == x;
                assert(b[k] == x);
                assert(b.to_set().contains(x));
                assert(a.to_set().contains(x));
                let m = choose|m: int| 0 <= m < a.len() && a[m] == x;
                assert(m < a.len() - 1);
                assert(a1[m] == x);
            }
        }
        assert(a1.to_set() =~= b1.to_set());
        lemma_sorted_unique_u64(a1, b1);
        assert(a =~= a1.push(a.last()));
        assert(b =~= b1.push(b.last()));
    }
}

/// Every finite set has an ascending enumeration.
pub proof fn lemma_ascending_u64(s: Set<u64>)
    requires
        s.finite(),
    ensures
        sorted_u64(ascending_u64(s)),
        ascending_u64(s).to_set() == s,
    decreases s.len(),
{
    if s.len() == 0 {
        let q = Seq::<u64>::empty();
        assert(q.to_set() =~= s);
        assert(sorted_u64(q) && q.to_set() == s);
    } else {
        let m = lemma_greatest_u64(s);
        lemma_ascending_u64(s.remove(m));
        let p = ascending_u64(s.remove(m));
        let q = p.push(m);
        assert forall|i: int, j: int| 0 <= i < j < q.len() implies q[i] < q[j] by {
            assert(p.to_set().contains(p[i]));
            assert(s.contains(p[i]));
        }
        assert forall|x: u64| q.to_set().contains(x) == s.contains(x) by {
            if s.contains(x) {
                if x == m {
                    assert(q[p.len() as int] == x);
                } else {
                    assert(p.to_set().contains(x));
                    let k = choose|k: int| 0 <= k < p.len() && p[k] == x;
                    assert(q[k] == x);
                }
            }
            if q.to_set().contains(x) {
                let k = choose|k: int| 0 <= k < q.len() && q[k] == x;
                if k < p.len() {
                    assert(p.to_set().contains(p[k]));
                }
            }
        }
        assert(q.to_set() =~= s);
        assert(sorted_u64(q) && q.to_set() == s);
    }
}

/// A finite set that is not empty has a greatest member.
pub proof fn lemma_greatest_u64(s: Set<u64>) -> (m: u64)
    requires
        s.finite(),
        s.len() > 0,
    ensures
        is_greatest_u64(s, m),
        greatest_u64(s) == m,
    decreases s.len(),
{
    let a = s.choose();
    if s.len() == 1 {
        assert forall|x: u64| s.contains(x) implies x <= a by {
            if x != a {
                assert(s.remove(a).contains(x));
                assert(s.remove(a).len() == 0);
            }
        }
        assert(is_greatest_u64(s, a));
        a
    } else {
        let b = lemma_greatest_u64(s.remove(a));
        if a <= b {
            assert forall|x: u64| s.contains(x) implies x <= b by {
                if x != a {
                    assert(s.remove(a).contains(x));
                }
            }
            assert(is_greatest_u64(s, b));
            b
        } else {
            assert forall|x: u64| s.contains(x) implies x <= a by {
                if x != a {
                    assert(s.remove(a).contains(x));
                }
            }
            assert(is_greatest_u64(s, a));
            a
        }
    }
}

/// The first of the ascending members is the least, the last the greatest.
pub proof fn lemma_ends_u64(q: Seq<u64>, s: Set<u64>)
    requires
        sorted_u64(q),
        q.to_set() == s,
        q.len() > 0,
    ensures
        is_least_u64(s, q[0]),
        least_u64(s) == q[0],
        is_greatest_u64(s, q.last()),
        greatest_u64(s) == q.last(),
{
    assert(q.to_set().contains(q[0]));
    assert(q.to_set().contains(q.last()));
    assert forall|x: u64| s.contains(x) implies q[0] <= x && x <= q.last() by {
        assert(q.to_set().contains(x));
        let k = choose|k: int| 0 <= k < q.len() && q[k] == x;
        assert(q[k] == x);
    }
    assert(is_least_u64(s, q[0]));
    assert(is_greatest_u64(s, q.last()));
}

/// A finite set that is not empty has a least member.
pub proof fn lemma_least_u64(s: Set<u64>)
    requires
        s.finite(),
        s.len() > 0,
    ensures
        is_least_u64(s, least_u64(s)),
{
    lemma_ascending_u64(s);
    let q = ascending_u64(s);
    if q.len() == 0 {
        assert(s =~= Set::empty());
    }
    lemma_ends_u64(q, s);
}

proof fn lemma_increasing_u64(q: Seq<&u64>)
    requires
        vstd::std_specs::btree::increasing_seq(q),
    ensures
        sorted_u64(q.unref()),
{
    assert(vstd::laws_cmp::obeys_cmp::<&u64>());
    assert forall|i: int, j: int| 0 <= i < j < q.unref().len() implies q.unref()[i]
        < q.unref()[j] by {
        assert(vstd::std_specs::cmp::OrdSpec::cmp_spec(&q[i], &q[j]) is Less);
    }
}

/// The keys of `m` in ascending order.
pub fn keys_u64<V>(m: &BTreeMap<u64, V>) -> (r: Vec<u64>)
    ensures
        r@ == ascending_u64(m@.dom()),
        sorted_u64(r@),
        r@.to_set() == m@.dom(),
{
    let mut r: Vec<u64> = Vec::new();
    for k in it: m.keys()
        invariant
            r@ == it.seq().unref().take(it.index() as int),
    {
        proof {
            assert(it.seq().unref().take(it.index() as int + 1) =~= it.seq().unref().take(
                it.index() as int,
            ).push(*k));
        }
        r.push(*k);
    }
    proof {
        let q = vstd::std_specs::iter::IteratorSpec::remaining(
            &vstd::std_specs::btree::spec_keys_iter(m),
        );
        assert(r@ =~= q.unref());
        lemma_increasing_u64(q);
        lemma_sorted_unique_u64(r@, ascending_u64(m@.dom()));
    }
    r
}

/// `q` is strictly ascending.
pub open spec fn sorted_u128(q: Seq<u128>) -> bool {
    forall|i: int, j: int| 0 <= i < j < q.len() ==> q[i] < q[j]
}

/// The members of `s` in ascending order.
pub open spec fn ascending_u128(s: Set<u128>) -> Seq<u128> {
    choose|q: Seq<u128>| sorted_u128(q) && #[trigger] q.to_set() == s
}

/// `m` is the greatest member of `s`.
pub open spec fn is_greatest_u128(s: Set<u128>, m: u128) -> bool {
    s.contains(m) && forall|x: u128| s.contains(x) ==> x <= m
}

/// The greatest member of `s`.
pub open spec fn greatest_u128(s: Set<u128>) -> u128 {
    choose|m: u128| is_greatest_u128(s, m)
}

/// A strictly ascending sequence is determined by its members.
pub proof fn lemma_sorted_unique_u128(a: Seq<u128>, b: Seq<u128>)
    requires
        sorted_u128(a),
        sorted_u128(b),
        a.to_set() == b.to_set(),
    ensures
        a == b,
    decreases a.len(),
{
    if a.len() == 0 {
        if b.len() > 0 {
            assert(b.to_set().contains(b[0]));
            assert(a.to_set().contains(b[0]));
        }
        assert(a =~= b);
    } else {
        assert(a.to_set().contains(a.last()));
        assert(b.to_set().contains(a.last()));
        assert(b.to_set().contains(b.last()));
        assert(a.to_set().contains(b.last()));
        let i = choose|i: int| 0 <= i < b.len() && b[i] == a.last();
        let j = choose|j: int| 0 <= j < a.len() && a[j] == b.last();
        assert(a.last() == b.last());
        let a1 = a.drop_last();
        let b1 = b.drop_last();
        assert forall|x: u128| a1.to_set().contains(x) == b1.to_set().contains(x) by {
            if a1.to_set().contains(x) {
                let k = choose|k: int| 0 <= k < a1.len() && a1[k] == x;
                assert(a[k] == x);
                assert(a.to_set().contains(x));
                assert(b.to_set().contains(x));
                let m = choose|m: int| 0 <= m < b.len() && b[m] == x;
                assert(m < b.len() - 1);
                assert(b1[m] == x);
            }
            if b1.to_set().contains(x) {
                let k = choose|k: int| 0 <= k < b1.len() && b1[k] == x;
                assert(b[k] == x);
                assert(b.to_set().contains(x));
                assert(a.to_set().contains(x));
                let m = choose|m: int| 0 <= m < a.len() && a[m] == x;
                assert(m < a.len() - 1);
                assert(a1[m] == x);
            }
        }
        assert(a1.to_set() =~= b1.to_set());
        lemma_sorted_unique_u128(a1, b1);
        assert(a =~= a1.push(a.last()));
        assert(b =~= b1.push(b.last()));
    }
}

/// Every finite set has an ascending enumeration.
pub proof fn lemma_ascending_u128(s: Set<u128>)
    requires
        s.finite(),
    ensures
        sorted_u128(ascending_u128(s)),
        ascending_u128(s).to_set() == s,
    decreases s.len(),
{
    if s.len() == 0 {
        let q = Seq::<u128>::empty();
        assert(q.to_set() =~= s);
        assert(sorted_u128(q) && q.to_set() == s);
    } else {
        let m = lemma_greatest_u128(s);
        lemma_ascending_u128(s.remove(m));
        let p = ascending_u128(s.remove(m));
        let q = p.push(m);
        assert forall|i: int, j: int| 0 <= i < j < q.len() implies q[i] < q[j] by {
            assert(p.to_set().contains(p[i]));
            assert(s.contains(p[i]));
        }
        assert forall|x: u128| q.to_set().contains(x) == s.contains(x) by {
            if s.contains(x) {
                if x == m {
                    assert(q[p.len() as int] == x);
                } else {
                    assert(p.to_set().contains(x));
                    let k = choose|k: int| 0 <= k < p.len() && p[k] == x;
                    assert(q[k] == x);
                }
            }
            if q.to_set().contains(x) {
                let k = choose|k: int| 0 <= k < q.len() && q[k] == x;
                if k < p.len() {
                    assert(p.to_set().contains(p[k]));
                }
            }
        }
        assert(q.to_set() =~= s);
        assert(sorted_u128(q) && q.to_set() == s);
    }
}

/// A finite set that is not empty has a greatest member.
pub proof fn lemma_greatest_u128(s: Set<u128>) -> (m: u128)
    requires
        s.finite(),
        s.len() > 0,
    ensures
        is_greatest_u128(s, m),
        greatest_u128(s) == m,
    decreases s.len(),
{
    let a = s.choose();
    if s.len() == 1 {
        assert forall|x: u128| s.contains(x) implies x <= a by {
            if x != a {
                assert(s.remove(a).contains(x));
                assert(s.remove(a).len() == 0);
            }
        }
        assert(is_greatest_u128(s, a));
        a
    } else {
        let b = lemma_greatest_u128(s.remove(a));
        if a <= b {
            assert forall|x: u128| s.contains(x) implies x <= b by {
                if x != a {
                    assert(s.remove(a).contains(x));
                }
            }
            assert(is_greatest_u128(s, b));
            b
        } else {
            assert forall|x: u128| s.contains(x) implies x <= a by {
                if x != a {
                    assert(s.remove(a).contains(x));
                }
            }
            assert(is_greatest_u128(s, a));
            a
        }
    }
}

proof fn lemma_increasing_u128(q: Seq<&u128>)
    requires
        vstd::std_specs::btree::increasing_seq(q),
    ensures
        sorted_u128(q.unref()),
{
    assert(vstd::laws_cmp::obeys_cmp::<&u128>());
    assert forall|i: int, j: int| 0 <= i < j < q.unref().len() implies q.unref()[i]
        < q.unref()[j] by {
        assert(vstd::std_specs::cmp::OrdSpec::cmp_spec(&q[i], &q[j]) is Less);
    }
}

/// The keys of `m` in ascending order.
pub fn keys_u128<V>(m: &BTreeMap<u128, V>) -> (r: Vec<u128>)
    ensures
        r@ == ascending_u128(m@.dom()),
        sorted_u128(r@),
        r@.to_set() == m@.dom(),
{
    let mut r: Vec<u128> = Vec::new();
    for k in it: m.keys()
        invariant
            r@ == it.seq().unref().take(it.index() as int),
    {
        proof {
            assert(it.seq().unref().take(it.index() as int + 1) =~= it.seq().unref().take(
                it.index() as int,
            ).push(*k));
        }
        r.push(*k);
    }
    proof {
        let q = vstd::std_specs::iter::IteratorSpec::remaining(
            &vstd::std_specs::btree::spec_keys_iter(m),
        );
        assert(r@ =~= q.unref());
        lemma_increasing_u128(q);
        lemma_sorted_unique_u128(r@, ascending_u128(m@.dom()));
    }
    r
}

/// The members of a set come once each, from the least to the greatest.
pub proof fn members_come_in_order(a: Set<u32>, b: Set<u64>, c: Set<u128>, i: int, j: int)
    requires
        a.finite(),
        b.finite(),
        c.finite(),
        0 <= i < j,
    ensures
        j < ascending_u32(a).len() ==> ascending_u32(a)[i] < ascending_u32(a)[j] && a.contains(
            ascending_u32(a)[i],
        ),
        j < ascending_u64(b).len() ==> ascending_u64(b)[i] < ascending_u64(b)[j] && b.contains(
            ascending_u64(b)[i],
        ),
        j < ascending_u128(c).len() ==> ascending_u128(c)[i] < ascending_u128(c)[j] && c.contains(
            ascending_u128(c)[i],
        ),
{
    lemma_ascending_u32(a);
    lemma_ascending_u64(b);
    lemma_ascending_u128(c);
    if j < ascending_u32(a).len() {
        assert(ascending_u32(a).to_set().contains(ascending_u32(a)[i]));
    }
    if j < ascending_u64(b).len() {
        assert(ascending_u64(b).to_set().contains(ascending_u64(b)[i]));
    }
    if j < ascending_u128(c).len() {
        assert(ascending_u128(c).to_set().contains(ascending_u128(c)[i]));
    }
}

/// The greatest and the least member of a set are members, and no other is beyond
/// them.
pub proof fn ends_are_members(a: Set<u32>, b: Set<u64>, x: u32, y: u64)
    requires
        a.finite(),
        b.finite(),
        a.contains(x),
        b.contains(y),
    ensures
        a.contains(greatest_u32(a)) && x <= greatest_u32(a),
        b.contains(greatest_u64(b)) && y <= greatest_u64(b),
        b.contains(least_u64(b)) && least_u64(b) <= y,
{
    let m = lemma_greatest_u32(a);
    let n = lemma_greatest_u64(b);
    lemma_least_u64(b);
}

} // verus!
