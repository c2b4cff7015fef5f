//! A transaction that has been checked and is on its way to being staged: it is
//! given its timestamps, its reads are checked for conflicts, and its writes are
//! applied in order.
use super::order;
use super::order::BootstrapTableIds;
use super::staging;
use super::staging::{ConflictCheck, PreparePlan, PrepareTimes};
use super::CommitError;
use crate::documents::{DocumentWrite, TableInfo, TableMapping};
use crate::names::WriteSource;
use vstd::prelude::*;

verus! {

/// What is done next about a transaction that has been checked.
#[derive(Clone, Copy, Debug, PartialEq, Eq, Structural)]
pub enum CheckedStage {
    /// Give it its timestamps.
    Assign,
    /// Look for writes that its reads conflict with, from where the timestamps say
    /// up to where it is staged.
    CheckReads(PrepareTimes),
    /// Apply the ordered writes to the base snapshot, and stage it.
    Apply(PrepareTimes),
    /// Nothing is staged.
    Failed,
}

/// A transaction that met no objection.
#[derive(Debug)]
pub struct CheckedTransaction {
    pub begin_ts: u64,
    /// What it writes, as it was checked.
    pub writes: Vec<DocumentWrite>,
    /// Where the tables are stored that say which writes depend on which.
    pub bootstrap_tables: Option<BootstrapTableIds>,
    pub source: WriteSource,
    pub stage: CheckedStage,
    /// The writes in the order in which they are applied, from
    /// [`CheckedStage::Apply`] on.
    pub ordered: Vec<DocumentWrite>,
}

/// The writes in the order in which they are applied. Fewer than two have no order.
pub open spec fn applied_order(bootstrap_tables: Option<BootstrapTableIds>, writes: Seq<DocumentWrite>) -> Seq<
    DocumentWrite,
> {
    match bootstrap_tables {
        Some(ids) if writes.len() > 1 => order::in_order(ids, writes),
        _ => writes,
    }
}

/// It can be told which writes depend on which.
pub open spec fn can_order(bootstrap_tables: Option<BootstrapTableIds>, writes: Seq<DocumentWrite>) -> bool {
    writes.len() > 1 ==> match bootstrap_tables {
        Some(ids) => order::all_sound(ids, writes),
        None => false,
    }
}

fn copies(writes: &Vec<DocumentWrite>) -> (r: Vec<DocumentWrite>)
    ensures
        r@ == writes@,
{
    let mut r: Vec<DocumentWrite> = Vec::new();
    let mut i: usize = 0;
    while i < writes.len()
        invariant
            i <= writes@.len(),
            r@ == writes@.take(i as int),
        decreases writes@.len() - i,
    {
        r.push(writes[i].copy());
        assert(r@ =~= writes@.take(i + 1));
        i += 1;
    }
    assert(r@ =~= writes@);
    r
}

impl CheckedTransaction {
    /// The transaction that was checked.
    pub open spec fn is_of(
        self,
        begin_ts: u64,
        writes: Seq<DocumentWrite>,
        tables: Seq<TableInfo>,
        source: Option<Seq<char>>,
    ) -> bool {
        &&& self.begin_ts == begin_ts
        &&& self.writes@ == writes
        &&& self.bootstrap_tables == order::bootstrap_ids(tables)
        &&& self.source@ == source
    }

    /// Nothing but the stage and the order of the writes differ.
    pub open spec fn is_same(self, other: CheckedTransaction) -> bool {
        self == (CheckedTransaction { stage: self.stage, ordered: self.ordered, ..other })
    }

    /// Where writes are applied, they are those that were checked, in order.
    pub open spec fn wf(self) -> bool {
        self.stage is Apply ==> self.ordered@ == applied_order(self.bootstrap_tables, self.writes@)
    }

    /// A transaction that met no objection.
    pub(crate) fn begin(
        begin_ts: u64,
        writes: &Vec<DocumentWrite>,
        table_mapping: &TableMapping,
        write_source: &WriteSource,
    ) -> (r: Self)
        ensures
            r.is_of(begin_ts, writes@, table_mapping.tables@, write_source@),
            r.stage == CheckedStage::Assign,
            r.wf(),
    {
        CheckedTransaction {
            begin_ts,
            writes: copies(writes),
            bootstrap_tables: BootstrapTableIds::find(table_mapping),
            source: write_source.copy(),
            stage: CheckedStage::Assign,
            ordered: Vec::new(),
        }
    }

    /// Goes on, given whether the reads are still current: puts the writes in the
    /// order in which they are applied.
    pub fn order_writes(&mut self, conflict: ConflictCheck) -> (r: Result<(), CommitError>)
        requires
            old(self).stage is CheckReads,
            staging::conflict_in(conflict) is None ==> can_order(
                old(self).bootstrap_tables,
                old(self).writes@,
            ),
        ensures
            final(self).is_same(*old(self)),
            final(self).wf(),
            super::routing::objection(r) == staging::conflict_in(conflict),
            final(self).stage == match r {
                Ok(()) => CheckedStage::Apply(old(self).stage->CheckReads_0),
                Err(_) => CheckedStage::Failed,
            },
            r is Ok ==> final(self).ordered@ == applied_order(
                old(self).bootstrap_tables,
                old(self).writes@,
            ),
    {
        let stage: CheckedStage = self.stage;
        self.stage = CheckedStage::Failed;
        match conflict {
            Ok(None) => {},
            Ok(Some(e)) => {
                return Err(e);
            },
            Err(e) => {
                return Err(e);
            },
        }
        let writes = copies(&self.writes);
        self.ordered = match self.bootstrap_tables {
            Some(ids) => if self.writes.len() > 1 {
                order::order_writes(ids, writes)
            } else {
                writes
            },
            None => writes,
        };
        if let CheckedStage::CheckReads(times) = stage {
            self.stage = CheckedStage::Apply(times);
        }
        Ok(())
    }
}

/// A transaction that is to be prepared and met no objection.
#[derive(Debug)]
pub struct CheckedPrepare {
    pub transaction_id: String,
    pub plan: PreparePlan,
    /// Whether the prepare is replayed: its leader has accepted it before.
    pub replayed: bool,
    pub transaction: CheckedTransaction,
}

impl CheckedPrepare {
    /// Nothing but the stage and the order of the writes differ.
    pub open spec fn is_same(self, other: CheckedPrepare) -> bool {
        &&& self == (CheckedPrepare { transaction: self.transaction, ..other })
        &&& self.transaction.is_same(other.transaction)
    }
}

pub(crate) proof fn lemma_applied_len(
    bootstrap_tables: Option<BootstrapTableIds>,
    writes: Seq<DocumentWrite>,
)
    ensures
        applied_order(bootstrap_tables, writes).len() == writes.len(),
{
    broadcast use vstd::seq_lib::group_to_multiset_ensures;

    if let Some(ids) = bootstrap_tables {
        order::ordering_respects_dependencies(ids, writes);
        assert(order::in_order(ids, writes).to_multiset().len() == writes.to_multiset().len());
    }
}

/// What is applied and staged is what was checked: no write is lost or added, and
/// each comes behind what it depends on.
pub proof fn staged_writes_are_those_checked(t: CheckedTransaction, ids: BootstrapTableIds)
    requires
        t.wf(),
        t.stage is Apply,
        t.bootstrap_tables == Some(ids),
    ensures
        order::is_ordering_of(ids, t.ordered@, t.writes@),
        t.writes@.len() > 1 ==> t.ordered@ == order::in_order(ids, t.writes@),
{
    order::ordering_respects_dependencies(ids, t.writes@);
}

/// What is applied is what was checked, whatever is known of the tables: as many
/// writes, each of them one of those checked.
pub proof fn applied_writes_are_those_checked(
    bootstrap_tables: Option<BootstrapTableIds>,
    writes: Seq<DocumentWrite>,
)
    ensures
        applied_order(bootstrap_tables, writes).to_multiset() == writes.to_multiset(),
        applied_order(bootstrap_tables, writes).len() == writes.len(),
        bootstrap_tables matches Some(ids) ==> order::is_ordering_of(
            ids,
            applied_order(bootstrap_tables, writes),
            writes,
        ),
{
    lemma_applied_len(bootstrap_tables, writes);
    if let Some(ids) = bootstrap_tables {
        order::ordering_respects_dependencies(ids, writes);
    }
}

/// A transaction that is being checked stays the one that was begun: the same
/// snapshot, writes and source, whatever stage it is in.
pub proof fn checked_transactions_stay_the_same(
    a: CheckedTransaction,
    b: CheckedTransaction,
    p: CheckedPrepare,
    q: CheckedPrepare,
    begin_ts: u64,
    writes: Seq<DocumentWrite>,
    tables: Seq<TableInfo>,
    source: Option<Seq<char>>,
)
    ensures
        a.is_of(begin_ts, writes, tables, source) ==> a.begin_ts == begin_ts && a.writes@ == writes
            && a.source@ == source,
        a.is_same(b) ==> a.begin_ts == b.begin_ts && a.writes@ == b.writes@ && a.source@ == b.source@
            && a.bootstrap_tables == b.bootstrap_tables,
        a.is_same(b) && b.is_of(begin_ts, writes, tables, source) ==> a.is_of(
            begin_ts,
            writes,
            tables,
            source,
        ),
        p.is_same(q) ==> p.transaction.is_same(q.transaction),
        a.is_same(a),
{
}

} // verus!
