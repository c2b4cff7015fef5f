//! Sets of table names.
use crate::names;
use crate::names::TableName;
use crate::text_map;
use crate::text_map::TextSet;
use vstd::prelude::*;
use vstd::string::*;

verus! {

/// Every member is a table name.
pub open spec fn all_tables(s: Set<Seq<char>>) -> bool {
    forall|t: Seq<char>| #[trigger] s.contains(t) ==> names::is_table_name(t)
}

/// A set of table names, in ascending order.
#[derive(Debug)]
pub struct TableSet {
    names: TextSet,
}

impl View for TableSet {
    type V = Set<Seq<char>>;

    closed spec fn view(&self) -> Set<Seq<char>> {
        self.names@
    }
}

/// Two sets have a table in common.
pub open spec fn share_a_table(a: Set<Seq<char>>, b: Set<Seq<char>>) -> bool {
    exists|t: Seq<char>| #[trigger] a.contains(t) && b.contains(t)
}

impl TableSet {
    #[verifier::type_invariant]
    spec fn is_valid(self) -> bool {
        all_tables(self.names@)
    }

    /// The empty set.
    pub fn new() -> (r: Self)
        ensures
            r@ == Set::<Seq<char>>::empty(),
    {
        TableSet { names: TextSet::new() }
    }

    /// Adds a table.
    pub fn insert(&mut self, table: &TableName)
        ensures
            final(self)@ == old(self)@.insert(table@),
    {
        proof {
            use_type_invariant(&*self);
        }
        table.check();
        let mut names: TextSet = TextSet::new();
        std::mem::swap(&mut names, &mut self.names);
        names.insert(table.as_str().to_owned());
        self.names = names;
    }

    /// Whether a table is in the set.
    pub fn contains(&self, table: &TableName) -> (r: bool)
        ensures
            r == self@.contains(table@),
    {
        self.names.contains(table.as_str())
    }

    /// How many tables are in the set.
    pub fn len(&self) -> (r: usize)
        ensures
            r == text_map::in_order(self@).len(),
    {
        self.names.len()
    }

    /// Whether the set is empty.
    pub fn is_empty(&self) -> (r: bool)
        ensures
            r == self@.is_empty(),
    {
        self.names.is_empty()
    }

    /// The tables, ascending.
    pub fn tables(&self) -> (r: Vec<TableName>)
        ensures
            crate::partition::table_texts(r@) == text_map::in_order(self@),
            crate::partition::table_texts(r@).to_set() == self@,
    {
        proof {
            use_type_invariant(self);
            self.names.lemma_finite();
            text_map::lemma_in_order(self.names@);
        }
        let ghost all = text_map::in_order(self.names@);
        let n: usize = self.names.len();
        let mut r: Vec<TableName> = Vec::new();
        let mut i: usize = 0;
        while i < n
            invariant
                i <= n,
                n == all.len(),
                all == text_map::in_order(self.names@),
                all_tables(self.names@),
                r@.len() == i,
                forall|j: int| 0 <= j < i ==> (#[trigger] r@[j])@ == all[j],
            decreases n - i,
        {
            match TableName::parse(self.names.at(i).as_str()) {
                Some(table) => {
                    r.push(table);
                },
                None => {
                    assert(false);
                },
            }
            i += 1;
        }
        assert(crate::partition::table_texts(r@) =~= all);
        r
    }

    /// Whether any table is in both sets.
    pub fn meets(&self, other: &TableSet) -> (r: bool)
        ensures
            r == share_a_table(self@, other@),
    {
        let tables = self.tables();
        let ghost all = crate::partition::table_texts(tables@);
        let mut i: usize = 0;
        while i < tables.len()
            invariant
                i <= tables@.len(),
                all == crate::partition::table_texts(tables@),
                all.to_set() == self@,
                forall|j: int| 0 <= j < i ==> !other@.contains(#[trigger] all[j]),
            decreases tables@.len() - i,
        {
            assert(all[i as int] == tables@[i as int]@);
            if other.contains(&tables[i]) {
                assert(all.to_set().contains(all[i as int]));
                assert(self@.contains(all[i as int]) && other@.contains(all[i as int]));
                return true;
            }
            i += 1;
        }
        proof {
            assert forall|t: Seq<char>| self@.contains(t) implies !other@.contains(t) by {
                assert(all.to_set().contains(t));
                let j = choose|j: int| 0 <= j < all.len() && all[j] == t;
                assert(!other@.contains(all[j]));
            }
        }
        false
    }

    /// Another copy of the set.
    pub fn copy(&self) -> (r: Self)
        ensures
            r@ == self@,
    {
        let tables = self.tables();
        let ghost all = crate::partition::table_texts(tables@);
        let mut r: TableSet = TableSet::new();
        let mut i: usize = 0;
        assert(all.take(0).to_set() =~= Set::empty());
        while i < tables.len()
            invariant
                i <= tables@.len(),
                all == crate::partition::table_texts(tables@),
                r@ == all.take(i as int).to_set(),
            decreases tables@.len() - i,
        {
            r.insert(&tables[i]);
            proof {
                let before = all.take(i as int);
                let after = all.take(i + 1);
                assert(after =~= before.push(all[i as int]));
                assert forall|t: Seq<char>| after.to_set().contains(t) == (before.to_set().contains(t) || t == all[i as int]) by {
                    if after.to_set().contains(t) {
                        let j = choose|j: int| 0 <= j < after.len() && after[j] == t;
                        if j < i {
                            assert(before[j] == t);
                        }
                    }
                    if before.to_set().contains(t) {
                        let j = choose|j: int| 0 <= j < before.len() && before[j] == t;
                        assert(after[j] == t);
                    }
                    assert(after[i as int] == all[i as int]);
                }
                assert(r@ =~= after.to_set());
            }
            i += 1;
        }
        assert(all.take(i as int) =~= all);
        r
    }
}

} // verus!
