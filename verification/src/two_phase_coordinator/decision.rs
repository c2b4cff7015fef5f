//! What a coordinator has decided, and how it reaches the participants.
use super::errors;
use crate::committer::{self, CommitError, Refusal};
use crate::partition::PartitionId;
use crate::text;
use vstd::prelude::*;
use vstd::string::*;

verus! {

/// How a transaction ends.
#[derive(Debug)]
pub enum Verdict {
    /// It is committed at this timestamp.
    Committed { ts: u64 },
    /// It is rolled back, for this reason.
    RolledBack { reason: String },
}

/// A verdict, as contracts speak of it.
pub enum Ending {
    Committed { ts: u64 },
    RolledBack { reason: Seq<char> },
}

impl View for Verdict {
    type V = Ending;

    open spec fn view(&self) -> Ending {
        match self {
            Verdict::Committed { ts } => Ending::Committed { ts: *ts },
            Verdict::RolledBack { reason } => Ending::RolledBack { reason: reason@ },
        }
    }
}

/// The durable decision about a transaction: how it ends, whom that concerns,
/// and who has done it.
#[derive(Debug)]
pub struct TwoPhaseDecision {
    pub verdict: Verdict,
    pub participants: Vec<u32>,
    pub resolved: Vec<u32>,
}

impl TwoPhaseDecision {
    /// The transaction is committed by all of `participants`.
    pub fn committed(ts: u64, participants: Vec<u32>) -> (r: Self)
        ensures
            r.verdict@ == (Ending::Committed { ts }),
            r.participants == participants,
            r.resolved@ == Seq::<u32>::empty(),
    {
        TwoPhaseDecision {
            verdict: Verdict::Committed { ts },
            participants,
            resolved: Vec::new(),
        }
    }

    /// The transaction is rolled back by all of `participants`.
    pub fn rolled_back(reason: String, participants: Vec<u32>) -> (r: Self)
        ensures
            r.verdict@ == (Ending::RolledBack { reason: reason@ }),
            r.participants == participants,
            r.resolved@ == Seq::<u32>::empty(),
    {
        TwoPhaseDecision {
            verdict: Verdict::RolledBack { reason },
            participants,
            resolved: Vec::new(),
        }
    }

    /// All participants have done what was decided.
    pub open spec fn is_settled(self) -> bool {
        forall|i: int|
            0 <= i < self.participants@.len() ==> self.resolved@.contains(
                #[trigger] self.participants@[i],
            )
    }

    /// Whether all participants have done what was decided.
    pub fn all_participants_resolved(&self) -> (r: bool)
        ensures
            r == self.is_settled(),
    {
        let mut i: usize = 0;
        while i < self.participants.len()
            invariant
                i <= self.participants@.len(),
                forall|k: int|
                    0 <= k < i ==> self.resolved@.contains(#[trigger] self.participants@[k]),
            decreases self.participants@.len() - i,
        {
            if !contains_u32(&self.resolved, self.participants[i]) {
                assert(!self.resolved@.contains(self.participants@[i as int]));
                return false;
            }
            i += 1;
        }
        true
    }

    /// Remembers that a participant has done what was decided. Says whether the
    /// decision is settled, for it can be deleted.
    pub fn mark_participant_resolved(&mut self, participant: PartitionId) -> (r: bool)
        ensures
            final(self).verdict == old(self).verdict,
            final(self).participants == old(self).participants,
            final(self).resolved@ == if old(self).resolved@.contains(participant.0) {
                old(self).resolved@
            } else {
                old(self).resolved@.push(participant.0)
            },
            r == final(self).is_settled(),
    {
        if !contains_u32(&self.resolved, participant.0) {
            self.resolved.push(participant.0);
        }
        self.all_participants_resolved()
    }

    /// Two decisions are the same.
    pub open spec fn same(self, other: TwoPhaseDecision) -> bool {
        self.verdict@ == other.verdict@ && self.participants@ == other.participants@ && self.resolved@
            == other.resolved@
    }

    /// Whether two decisions are the same.
    pub fn is_same(&self, other: &TwoPhaseDecision) -> (r: bool)
        ensures
            r == self.same(*other),
    {
        let verdicts: bool = match (&self.verdict, &other.verdict) {
            (Verdict::Committed { ts: a }, Verdict::Committed { ts: b }) => *a == *b,
            (Verdict::RolledBack { reason: a }, Verdict::RolledBack { reason: b }) => text::same(
                a.as_str(),
                b.as_str(),
            ),
            _ => false,
        };
        verdicts && same_u32(&self.participants, &other.participants) && same_u32(
            &self.resolved,
            &other.resolved,
        )
    }
}

fn contains_u32(v: &Vec<u32>, x: u32) -> (r: bool)
    ensures
        r == v@.contains(x),
{
    let mut i: usize = 0;
    while i < v.len()
        invariant
            i <= v@.len(),
            forall|k: int| 0 <= k < i ==> v@[k] != x,
        decreases v@.len() - i,
    {
        if v[i] == x {
            assert(v@[i as int] == x);
            return true;
        }
        i += 1;
    }
    false
}

fn same_u32(a: &Vec<u32>, b: &Vec<u32>) -> (r: bool)
    ensures
        r == (a@ == b@),
{
    if a.len() != b.len() {
        return false;
    }
    let mut i: usize = 0;
    while i < a.len()
        invariant
            i <= a@.len(),
            a@.len() == b@.len(),
            forall|k: int| 0 <= k < i ==> a@[k] == b@[k],
        decreases a@.len() - i,
    {
        if a[i] != b[i] {
            assert(a@[i as int] != b@[i as int]);
            return false;
        }
        i += 1;
    }
    assert(a@ =~= b@);
    true
}

/// Said of a decision that is there and cannot be read.
pub open spec fn unreadable_decision(id: Seq<char>) -> Refusal {
    committer::refused(
        "2PC Coordinator: decision for txn="@ + id
            + " already existed but could not be read"@,
    )
}

/// Said of a transaction that was decided otherwise.
pub open spec fn contrary_decision(id: Seq<char>, existing: Seq<char>, wanted: Seq<char>) -> Refusal {
    committer::refused(
        "2PC Coordinator: durable decision for txn="@ + id + " is already "@ + existing
            + ", cannot overwrite with "@ + wanted,
    )
}

/// Checks what came of recording a decision: either it was recorded, or the same
/// decision was there before. A transaction is decided once. Each decision comes
/// with how it shows itself in a log.
pub fn write_decision_record(
    transaction_id: &str,
    decision: &TwoPhaseDecision,
    shown: &str,
    written: bool,
    existing: Option<(&TwoPhaseDecision, &str)>,
) -> (r: Result<(), CommitError>)
    ensures
        committer::outcome(r) == if written {
            Ok::<(), Refusal>(())
        } else {
            match existing {
                None => Err(unreadable_decision(transaction_id@)),
                Some((e, e_shown)) => if e.same(*decision) {
                    Ok(())
                } else {
                    Err(contrary_decision(transaction_id@, e_shown@, shown@))
                },
            }
        },
{
    if written {
        return Ok(());
    }
    match existing {
        None => {
            let mut s: String = String::new();
            s.append("2PC Coordinator: decision for txn=");
            s.append(transaction_id);
            s.append(" already existed but could not be read");
            assert(s@ =~= unreadable_decision(transaction_id@).text);
            Err(CommitError::new(s))
        },
        Some((e, e_shown)) => {
            if e.is_same(decision) {
                return Ok(());
            }
            let mut s: String = String::new();
            s.append("2PC Coordinator: durable decision for txn=");
            s.append(transaction_id);
            s.append(" is already ");
            s.append(e_shown);
            s.append(", cannot overwrite with ");
            s.append(shown);
            assert(s@ =~= contrary_decision(transaction_id@, e_shown@, shown@).text);
            Err(CommitError::new(s))
        },
    }
}

/// What a participant is asked to do.
#[derive(Clone, Copy, Debug, PartialEq, Eq, Structural)]
pub enum Request {
    Prepare,
    Rollback,
    Commit,
}

/// How a request is named in messages.
pub open spec fn routed_what(request: Request) -> Seq<char> {
    match request {
        Request::Prepare => "this transaction"@,
        Request::Rollback => "rollback"@,
        Request::Commit => "commit"@,
    }
}

/// Said where no addresses are configured.
pub open spec fn no_addresses(request: Request, participant: PartitionId) -> Refusal {
    committer::refused(
        "NODE_ADDRESSES is required to route "@ + routed_what(request)
            + " to the authoritative owner "@ + participant.text(),
    )
}

/// Said where a participant has no address.
pub open spec fn no_address_for(participant: PartitionId) -> Refusal {
    committer::refused("Missing NODE_ADDRESSES entry for "@ + participant.text())
}

/// How a participant is reached.
#[derive(Clone, Copy, Debug, PartialEq, Eq, Structural)]
pub enum Route {
    /// It is this node.
    Local,
    /// It is reached at one of this many addresses.
    Remote(usize),
}

/// Decides how a participant is reached: itself by this node, another at the
/// addresses that are known of it.
pub fn route_to(
    request: Request,
    participant: PartitionId,
    local: PartitionId,
    addresses: Option<&crate::two_phase::NodeAddresses>,
) -> (r: Result<Route, CommitError>)
    ensures
        committer::outcome(r) == if participant == local {
            Ok::<Route, Refusal>(Route::Local)
        } else {
            match addresses {
                None => Err(no_addresses(request, participant)),
                Some(a) => if a@.contains_key(participant.0) && a@[participant.0].len() > 0 {
                    Ok(Route::Remote(a@[participant.0].len() as usize))
                } else {
                    Err(no_address_for(participant))
                },
            }
        },
{
    if participant == local {
        return Ok(Route::Local);
    }
    match addresses {
        None => {
            let mut s: String = String::new();
            s.append("NODE_ADDRESSES is required to route ");
            match request {
                Request::Prepare => {
                    s.append("this transaction");
                },
                Request::Rollback => {
                    s.append("rollback");
                },
                Request::Commit => {
                    s.append("commit");
                },
            }
            s.append(" to the authoritative owner ");
            participant.push_to(&mut s);
            assert(s@ =~= no_addresses(request, participant).text);
            Err(CommitError::new(s))
        },
        Some(a) => {
            if let Some(v) = a.addresses_for(participant) {
                assert(crate::partition::texts(v@).len() == v@.len());
                if v.len() > 0 {
                    return Ok(Route::Remote(v.len()));
                }
            }
            let mut s: String = String::new();
            s.append("Missing NODE_ADDRESSES entry for ");
            participant.push_to(&mut s);
            assert(s@ =~= no_address_for(participant).text);
            Err(CommitError::new(s))
        },
    }
}

/// Trying the addresses of a participant one after the other.
#[derive(Clone, Copy, Debug, PartialEq, Eq, Structural)]
pub struct AddressWalk {
    pub total: usize,
    /// The address that is tried next.
    pub next: usize,
}

impl AddressWalk {
    /// Begins with the first address.
    pub fn start(total: usize) -> (r: Self)
        ensures
            r.total == total,
            r.next == 0,
    {
        AddressWalk { total, next: 0 }
    }

    /// Goes on after a failure: to the next address where the participant may
    /// not have been reached, and not at all where it has answered. Where no
    /// address is left, the last failure stands.
    pub fn failed(&mut self, err: CommitError) -> (r: Result<(), CommitError>)
        requires
            old(self).next < old(self).total,
        ensures
            final(self).total == old(self).total,
            if !errors::suggests_no_contact(err.message@) {
                r matches Err(e) && e@ == err@ && final(self).next == old(self).next
            } else if old(self).next + 1 < old(self).total {
                r is Ok && final(self).next == old(self).next + 1
            } else {
                r matches Err(e) && e@ == err@ && final(self).next == old(self).next
            },
    {
        if !errors::message_suggests_no_contact(err.message.as_str()) {
            return Err(err);
        }
        if self.next + 1 < self.total {
            self.next = self.next + 1;
            return Ok(());
        }
        Err(err)
    }
}

/// A decision is settled exactly where each participant has been resolved.
pub proof fn decisions_settle_with_the_last_participant(d: TwoPhaseDecision)
    ensures
        d.is_settled() <==> forall|p: u32|
            #[trigger] d.participants@.contains(p) ==> d.resolved@.contains(p),
{
    if d.is_settled() {
        assert forall|p: u32| #[trigger] d.participants@.contains(p) implies d.resolved@.contains(
            p,
        ) by {
            let i = choose|i: int| 0 <= i < d.participants@.len() && d.participants@[i] == p;
            assert(d.resolved@.contains(d.participants@[i]));
        }
    }
    if forall|p: u32| #[trigger] d.participants@.contains(p) ==> d.resolved@.contains(p) {
        assert forall|i: int| 0 <= i < d.participants@.len() implies d.resolved@.contains(
            #[trigger] d.participants@[i],
        ) by {
            assert(d.participants@.contains(d.participants@[i]));
        }
    }
}

/// Two decisions are the same exactly where they agree in all they say.
pub proof fn decisions_are_the_same_in_everything(a: TwoPhaseDecision, b: TwoPhaseDecision)
    ensures
        a.same(a),
        a.same(b) == b.same(a),
        a.same(b) ==> a.verdict@ == b.verdict@,
        a.same(b) ==> a.participants@ == b.participants@ && a.resolved@ == b.resolved@,
        a.verdict@ == b.verdict@ && a.participants@ == b.participants@ && a.resolved@ == b.resolved@
            ==> a.same(b),
        a.same(b) && a.verdict is Committed ==> b.verdict is Committed,
{
}

/// A decision that contradicts one already made is told with the one made first; a
/// participant that cannot be reached is named.
pub proof fn contrary_decisions_are_told(
    id: Seq<char>,
    existing: Seq<char>,
    wanted: Seq<char>,
    request: Request,
    participant: PartitionId,
)
    ensures
        contrary_decision(id, existing, wanted).text == "2PC Coordinator: durable decision for txn="@
            + id + " is already "@ + existing + ", cannot overwrite with "@ + wanted,
        contrary_decision(id, existing, wanted).occ is None,
        no_addresses(request, participant).text == "NODE_ADDRESSES is required to route "@
            + routed_what(request) + " to the authoritative owner "@ + participant.text(),
        no_addresses(request, participant).occ is None,
        no_address_for(participant).text == "Missing NODE_ADDRESSES entry for "@
            + participant.text(),
        no_address_for(participant).occ is None,
{
}

} // verus!
