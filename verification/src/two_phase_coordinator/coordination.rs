//! The course of a two-phase commit.
//!
//! A [`Coordination`] says what the coordinator does next and takes in how it
//! went. Participants are asked to prepare in order, each once the one before
//! has; so those that have prepared are always the first few.
use super::decision::{Ending, TwoPhaseDecision};
use super::errors;
use super::verify_prepare_result;
use super::{Classification, TransactionClassification};
use crate::committer::staging::{FinalTransaction, PrepareResult};
use crate::committer::{self, CommitError, CommitOutcome, Refusal};
use crate::conflict_resolver;
use crate::conflict_resolver::{ConflictPlan, Plan};
use crate::metrics;
use crate::metrics::{Measured, MetricsRecorder};
use crate::names::WriteSource;
use crate::ordered;
use crate::partition::{PartitionId, PartitionMap};
use crate::text;
use vstd::prelude::*;
use vstd::string::*;

verus! {

/// How often a coordinator tries to find a timestamp that suits everyone.
pub const MAX_PREPARE_TS_RETRIES: usize = 8;

/// What a coordinator does next.
#[derive(Clone, Copy, Debug, PartialEq, Eq, Structural)]
pub enum Phase {
    /// Take a new name and timestamp for the transaction.
    Allocate,
    /// Ask the participant at this position to prepare.
    Prepare(usize),
    /// Record that the first so many participants are rolled back.
    RecordRollback(usize),
    /// Roll the last of the first so many participants back.
    Rollback(usize),
    /// Remember that the last of the first so many participants is rolled back.
    MarkRolledBack(usize),
    /// Record that all participants commit.
    RecordCommit,
    /// Have the participant at this position commit.
    Commit(usize),
    /// Remember that the participant at this position has committed.
    MarkCommitted(usize),
    /// The transaction is committed.
    Done,
    /// The transaction is not committed, or it is not known to everyone that it
    /// is.
    Failed,
}

/// How the last step of a coordinator went.
#[derive(Debug)]
pub enum Event {
    /// A timestamp was taken, under this name.
    Allocated(String, u64),
    /// A participant has prepared, at this timestamp.
    Prepared(u64),
    /// A participant has committed, at this timestamp.
    Committed(u64),
    /// A participant has not prepared. Besides the whole error, this is what its
    /// outermost part says.
    Refused(CommitError, String),
    /// It was done.
    Done,
    /// It failed.
    Failed(CommitError),
}

/// How the last step of a coordinator went, as contracts speak of it.
pub enum News {
    Allocated(Seq<char>, u64),
    Prepared(u64),
    Committed(u64),
    Refused(Refusal, Seq<char>),
    Done,
    Failed(Refusal),
}

impl View for Event {
    type V = News;

    open spec fn view(&self) -> News {
        match self {
            Event::Allocated(id, ts) => News::Allocated(id@, *ts),
            Event::Prepared(ts) => News::Prepared(*ts),
            Event::Committed(ts) => News::Committed(*ts),
            Event::Refused(e, reason) => News::Refused(e@, reason@),
            Event::Done => News::Done,
            Event::Failed(e) => News::Failed(e@),
        }
    }
}

/// A two-phase commit on its way.
#[derive(Debug)]
pub struct Coordination {
    pub participants: Vec<u32>,
    /// The one participant, where there is only one.
    pub source_partition: Option<PartitionId>,
    pub phase: Phase,
    pub transaction_id: String,
    /// How many timestamps have been tried and given up.
    pub attempt: usize,
    pub prepare_ts: u64,
    /// The timestamps the participants have committed at.
    pub commits: Vec<u64>,
    /// Why a participant did not prepare, or why the commit has failed.
    pub error: Option<CommitError>,
    /// Why a participant did not prepare, in short.
    pub reason: String,
    /// Whether a new timestamp is tried once everyone is rolled back.
    pub retrying: bool,
}

/// A two-phase commit, as contracts speak of it.
#[verifier::ext_equal]
pub struct Course {
    pub participants: Seq<u32>,
    pub source_partition: Option<PartitionId>,
    pub phase: Phase,
    pub id: Seq<char>,
    pub attempt: usize,
    pub prepare_ts: u64,
    pub commits: Seq<u64>,
    pub error: Option<Refusal>,
    pub reason: Seq<char>,
    pub retrying: bool,
}

impl View for Coordination {
    type V = Course;

    open spec fn view(&self) -> Course {
        Course {
            participants: self.participants@,
            source_partition: self.source_partition,
            phase: self.phase,
            id: self.transaction_id@,
            attempt: self.attempt,
            prepare_ts: self.prepare_ts,
            commits: self.commits@,
            error: match self.error {
                Some(e) => Some(e@),
                None => None,
            },
            reason: self.reason@,
            retrying: self.retrying,
        }
    }
}

/// A course of events and what is measured along the way.
pub struct Turn {
    pub course: Course,
    pub samples: Seq<Measured>,
}

/// The first participant that committed at another timestamp.
pub open spec fn strayed(commits: Seq<u64>, ts: u64) -> Option<int>
    decreases commits.len(),
{
    if commits.len() == 0 {
        None
    } else {
        match strayed(commits.drop_last(), ts) {
            Some(i) => Some(i),
            None => if commits.last() != ts {
                Some(commits.len() - 1)
            } else {
                None
            },
        }
    }
}

/// Said of a participant that committed at another timestamp.
pub open spec fn committed_elsewhere(participant: PartitionId, ts: u64, asked: u64) -> Refusal {
    committer::refused(
        "Participant "@ + participant.text() + " committed at ts="@ + text::dec(ts as nat)
            + " but coordinator assigned ts="@ + text::dec(asked as nat),
    )
}

/// Said where a decision to roll back was not recorded.
pub open spec fn rollback_not_recorded(id: Seq<char>) -> Seq<char> {
    "2PC Coordinator: failed to write rollback decision for txn="@ + id
}

/// Said where a decision to commit was not recorded.
pub open spec fn commit_not_recorded(id: Seq<char>) -> Seq<char> {
    "2PC Coordinator: failed to write commit decision for txn="@ + id
}

/// Said where a participant's commit was not remembered.
pub open spec fn commit_not_marked(participant: PartitionId, id: Seq<char>) -> Seq<char> {
    "2PC Coordinator: participant "@ + participant.text() + " committed txn="@ + id
        + " but resolution acknowledgement failed"@
}

impl Course {
    /// The course with another phase.
    pub open spec fn at(self, phase: Phase) -> Course {
        Course { phase, ..self }
    }

    /// The course has failed.
    pub open spec fn failed(self, e: Refusal) -> Course {
        Course { phase: Phase::Failed, error: Some(e), ..self }
    }

    /// What is measured when a transaction is given up.
    pub open spec fn given_up_samples(self) -> Seq<Measured> {
        seq![
            metrics::counted(
                "DATABASE_TWO_PHASE_COORDINATOR_ERRORS_TOTAL"@,
                1,
                seq![("phase"@, "prepare"@)],
            ),
            metrics::counted(
                "DATABASE_TWO_PHASE_COORDINATOR_DECISIONS_TOTAL"@,
                1,
                seq![("outcome"@, "rollback"@)],
            ),
            metrics::observed(
                "DATABASE_TWO_PHASE_PREPARE_ATTEMPTS_TOTAL"@,
                self.attempt + 1,
                metrics::unlabelled(),
            ),
        ]
    }

    /// What comes once everyone who may have prepared is rolled back: another
    /// timestamp, or the end.
    pub open spec fn settled(self) -> Turn {
        if self.retrying {
            Turn {
                course: Course {
                    phase: Phase::Allocate,
                    attempt: (self.attempt + 1) as usize,
                    retrying: false,
                    ..self
                },
                samples: seq![
                    metrics::counted(
                        "DATABASE_TWO_PHASE_PREPARE_RETRIES_TOTAL"@,
                        1,
                        metrics::unlabelled(),
                    ),
                ],
            }
        } else {
            Turn { course: self.at(Phase::Failed), samples: self.given_up_samples() }
        }
    }

    /// What comes after a participant at position `i` did not prepare. Where it
    /// may have, it is rolled back with those that have.
    pub open spec fn prepare_failed(self, i: usize, e: Refusal, reason: Seq<char>) -> Turn {
        let affected = if errors::suggests_no_contact(e.text) {
            (i + 1) as usize
        } else {
            i
        };
        let next = Course {
            error: Some(e),
            reason,
            retrying: text::occurs(e.text, errors::passed_phrase()) && self.attempt + 1
                < MAX_PREPARE_TS_RETRIES,
            ..self
        };
        if affected > 0 {
            Turn { course: next.at(Phase::RecordRollback(affected)), samples: Seq::empty() }
        } else {
            next.settled()
        }
    }

    /// What comes after one participant has been dealt with, with `left` to go.
    pub open spec fn rolled_on(self, left: usize) -> Turn {
        if left > 0 {
            Turn { course: self.at(Phase::Rollback(left)), samples: Seq::empty() }
        } else {
            self.settled()
        }
    }

    /// What comes after all participants have committed.
    pub open spec fn concluded(self) -> Turn {
        match strayed(self.commits, self.prepare_ts) {
            Some(i) => Turn {
                course: self.failed(
                    committed_elsewhere(
                        PartitionId(self.participants[i]),
                        self.commits[i],
                        self.prepare_ts,
                    ),
                ),
                samples: Seq::empty(),
            },
            None => Turn {
                course: self.at(Phase::Done),
                samples: seq![
                    metrics::observed(
                        "DATABASE_TWO_PHASE_PREPARE_ATTEMPTS_TOTAL"@,
                        self.attempt + 1,
                        metrics::unlabelled(),
                    ),
                    metrics::counted(
                        "DATABASE_TWO_PHASE_COORDINATOR_DECISIONS_TOTAL"@,
                        1,
                        seq![("outcome"@, "commit"@)],
                    ),
                ],
            },
        }
    }

    /// What comes next, given how the last step went. Anything that does not
    /// belong to the current phase changes nothing.
    pub open spec fn next(self, news: News) -> Turn {
        let stay = Turn { course: self, samples: Seq::empty() };
        match (self.phase, news) {
            (Phase::Allocate, News::Allocated(id, ts)) => Turn {
                course: Course { id, prepare_ts: ts, phase: Phase::Prepare(0), ..self },
                samples: Seq::empty(),
            },
            (Phase::Allocate, News::Failed(e)) => Turn {
                course: self.failed(e),
                samples: Seq::empty(),
            },
            (Phase::Prepare(i), News::Prepared(ts)) => if i >= self.participants.len() {
                stay
            } else if ts != self.prepare_ts {
                let e = super::prepared_elsewhere(
                    PartitionId(self.participants[i as int]),
                    ts,
                    self.prepare_ts,
                );
                self.prepare_failed(i, e, e.text)
            } else if i + 1 < self.participants.len() {
                Turn {
                    course: self.at(Phase::Prepare((i + 1) as usize)),
                    samples: Seq::empty(),
                }
            } else {
                Turn { course: self.at(Phase::RecordCommit), samples: Seq::empty() }
            },
            (Phase::Prepare(i), News::Failed(e)) => if i >= self.participants.len() {
                stay
            } else {
                self.prepare_failed(i, e, e.text)
            },
            (Phase::Prepare(i), News::Refused(e, reason)) => if i >= self.participants.len() {
                stay
            } else {
                self.prepare_failed(i, e, reason)
            },
            (Phase::RecordRollback(n), News::Done) => Turn {
                course: self.at(Phase::Rollback(n)),
                samples: Seq::empty(),
            },
            (Phase::RecordRollback(n), News::Failed(e)) => Turn {
                course: self.failed(committer::in_context(rollback_not_recorded(self.id), e)),
                samples: Seq::empty(),
            },
            (Phase::Rollback(n), News::Done) => Turn {
                course: self.at(Phase::MarkRolledBack(n)),
                samples: Seq::empty(),
            },
            (Phase::Rollback(n), News::Failed(e)) => if errors::says_unknown(e.text) {
                Turn { course: self.at(Phase::MarkRolledBack(n)), samples: Seq::empty() }
            } else if n == 0 {
                self.settled()
            } else {
                self.rolled_on((n - 1) as usize)
            },
            (Phase::MarkRolledBack(n), News::Done) => if n == 0 {
                self.settled()
            } else {
                self.rolled_on((n - 1) as usize)
            },
            (Phase::MarkRolledBack(n), News::Failed(_)) => if n == 0 {
                self.settled()
            } else {
                self.rolled_on((n - 1) as usize)
            },
            (Phase::RecordCommit, News::Done) => Turn {
                course: self.at(Phase::Commit(0)),
                samples: Seq::empty(),
            },
            (Phase::RecordCommit, News::Failed(e)) => Turn {
                course: self.failed(committer::in_context(commit_not_recorded(self.id), e)),
                samples: Seq::empty(),
            },
            (Phase::Commit(i), News::Committed(ts)) => Turn {
                course: Course {
                    commits: self.commits.push(ts),
                    phase: Phase::MarkCommitted(i),
                    ..self
                },
                samples: Seq::empty(),
            },
            (Phase::Commit(i), News::Failed(e)) => Turn {
                course: self.failed(e),
                samples: seq![
                    metrics::counted(
                        "DATABASE_TWO_PHASE_COORDINATOR_ERRORS_TOTAL"@,
                        1,
                        seq![("phase"@, "commit"@)],
                    ),
                ],
            },
            (Phase::MarkCommitted(i), News::Done) => if i + 1 < self.participants.len() {
                Turn { course: self.at(Phase::Commit((i + 1) as usize)), samples: Seq::empty() }
            } else {
                self.concluded()
            },
            (Phase::MarkCommitted(i), News::Failed(e)) => if i >= self.participants.len() {
                stay
            } else {
                Turn {
                    course: self.failed(
                        committer::in_context(
                            commit_not_marked(PartitionId(self.participants[i as int]), self.id),
                            e,
                        ),
                    ),
                    samples: Seq::empty(),
                }
            },
            _ => stay,
        }
    }

    /// The state makes sense: positions are positions of participants, and there
    /// is one commit for each participant that has committed.
    pub open spec fn is_sound(self) -> bool {
        &&& self.participants.len() > 0
        &&& self.participants.len() < usize::MAX
        &&& self.attempt < MAX_PREPARE_TS_RETRIES
        &&& self.retrying ==> self.attempt + 1 < MAX_PREPARE_TS_RETRIES
        &&& match self.phase {
            Phase::Allocate => self.commits.len() == 0,
            Phase::Prepare(i) => i < self.participants.len() && self.commits.len() == 0,
            Phase::RecordRollback(n) => 0 < n <= self.participants.len() && self.commits.len() == 0,
            Phase::Rollback(n) => 0 < n <= self.participants.len() && self.commits.len() == 0,
            Phase::MarkRolledBack(n) => 0 < n <= self.participants.len() && self.commits.len()
                == 0,
            Phase::RecordCommit => self.commits.len() == 0,
            Phase::Commit(i) => i < self.participants.len() && self.commits.len() == i,
            Phase::MarkCommitted(i) => i < self.participants.len() && self.commits.len() == i + 1,
            Phase::Done => true,
            Phase::Failed => true,
        }
    }
}

impl Coordination {
    /// Begins a two-phase commit of these participants.
    pub fn start(metrics: &mut MetricsRecorder, participants: Vec<u32>, source_partition: Option<PartitionId>) -> (r:
        Self)
        ensures
            r@ == (Course {
                participants: participants@,
                source_partition,
                phase: Phase::Allocate,
                id: Seq::empty(),
                attempt: 0,
                prepare_ts: 0,
                commits: Seq::empty(),
                error: None,
                reason: Seq::empty(),
                retrying: false,
            }),
            0 < participants@.len() < usize::MAX ==> r@.is_sound(),
            final(metrics)@ == old(metrics)@.push(
                metrics::observed(
                    "DATABASE_TWO_PHASE_PARTICIPANTS_TOTAL"@,
                    participants@.len() as int,
                    metrics::unlabelled(),
                ),
            ),
    {
        metrics::log_two_phase_participants(metrics, participants.len());
        let r = Coordination {
            participants,
            source_partition,
            phase: Phase::Allocate,
            transaction_id: String::new(),
            attempt: 0,
            prepare_ts: 0,
            commits: Vec::new(),
            error: None,
            reason: String::new(),
            retrying: false,
        };
        assert(r@.id =~= Seq::empty());
        assert(r@.reason =~= Seq::empty());
        assert(r@.commits =~= Seq::empty());
        r
    }

    /// What whoever asked for the commit is told once it is done.
    pub fn outcome(&self) -> (r: CommitOutcome)
        ensures
            r == (CommitOutcome {
                ts: self@.prepare_ts,
                source_partition: self@.source_partition,
            }),
    {
        CommitOutcome { ts: self.prepare_ts, source_partition: self.source_partition }
    }

    /// The decision that is recorded, where one is to be.
    pub fn decision(&self) -> (r: Option<TwoPhaseDecision>)
        requires
            self@.is_sound(),
        ensures
            match self@.phase {
                Phase::RecordCommit => r matches Some(d) && d.verdict@ == (Ending::Committed {
                    ts: self@.prepare_ts,
                }) && d.participants@ == self@.participants && d.resolved@ == Seq::<u32>::empty(),
                Phase::RecordRollback(n) => r matches Some(d) && d.verdict@ == (Ending::RolledBack {
                    reason: self@.reason,
                }) && d.participants@ == self@.participants.take(n as int) && d.resolved@
                    == Seq::<u32>::empty(),
                _ => r is None,
            },
    {
        match self.phase {
            Phase::RecordCommit => {
                let n: usize = self.participants.len();
                let participants: Vec<u32> = self.first(n);
                assert(self.participants@.take(n as int) =~= self.participants@);
                Some(TwoPhaseDecision::committed(self.prepare_ts, participants))
            },
            Phase::RecordRollback(n) => Some(
                TwoPhaseDecision::rolled_back(self.reason.as_str().to_owned(), self.first(n)),
            ),
            _ => None,
        }
    }

    /// The first `n` participants.
    fn first(&self, n: usize) -> (r: Vec<u32>)
        requires
            n <= self.participants@.len(),
        ensures
            r@ == self.participants@.take(n as int),
    {
        let mut r: Vec<u32> = Vec::new();
        let mut i: usize = 0;
        while i < n
            invariant
                i <= n <= self.participants@.len(),
                r@ == self.participants@.take(i as int),
            decreases n - i,
        {
            r.push(self.participants[i]);
            assert(r@ =~= self.participants@.take(i + 1));
            i += 1;
        }
        r
    }

    fn fail(&mut self, e: CommitError)
        ensures
            final(self)@ == old(self)@.failed(e@),
    {
        self.error = Some(e);
        self.phase = Phase::Failed;
    }

    fn settle(&mut self, metrics: &mut MetricsRecorder)
        requires
            old(self)@.is_sound(),
        ensures
            final(self)@ == old(self)@.settled().course,
            final(metrics)@ == old(metrics)@ + old(self)@.settled().samples,
    {
        let ghost before = metrics@;
        if self.retrying {
            metrics::log_two_phase_prepare_retry(metrics);
            self.attempt = self.attempt + 1;
            self.retrying = false;
            self.phase = Phase::Allocate;
        } else {
            metrics::log_two_phase_error(metrics, "prepare");
            metrics::log_two_phase_decision(metrics, "rollback");
            metrics::log_two_phase_prepare_attempts(metrics, self.attempt + 1);
            self.phase = Phase::Failed;
        }
        assert(metrics@ =~= before + old(self)@.settled().samples);
    }

    fn prepare_failed(&mut self, metrics: &mut MetricsRecorder, i: usize, e: CommitError, reason: String)
        requires
            old(self)@.is_sound(),
            old(self)@.phase == Phase::Prepare(i),
        ensures
            final(self)@ == old(self)@.prepare_failed(i, e@, reason@).course,
            final(metrics)@ == old(metrics)@ + old(self)@.prepare_failed(i, e@, reason@).samples,
    {
        let ghost before = metrics@;
        let retryable: bool = text::contains(e.message.as_str(), "2PC Prepare assigned ts=");
        self.retrying = retryable && self.attempt + 1 < MAX_PREPARE_TS_RETRIES;
        let affected: usize = if errors::message_suggests_no_contact(e.message.as_str()) {
            i + 1
        } else {
            i
        };
        self.error = Some(e);
        self.reason = reason;
        if affected > 0 {
            self.phase = Phase::RecordRollback(affected);
            assert(metrics@ =~= before + Seq::<Measured>::empty());
        } else {
            self.settle(metrics);
        }
    }

    fn roll_on(&mut self, metrics: &mut MetricsRecorder, n: usize)
        requires
            old(self)@.is_sound(),
            n > 0,
        ensures
            final(self)@ == old(self)@.rolled_on((n - 1) as usize).course,
            final(metrics)@ == old(metrics)@ + old(self)@.rolled_on((n - 1) as usize).samples,
    {
        let ghost before = metrics@;
        if n > 1 {
            self.phase = Phase::Rollback(n - 1);
            assert(metrics@ =~= before + Seq::<Measured>::empty());
        } else {
            self.settle(metrics);
        }
    }

    fn find_strayed(&self) -> (r: Option<usize>)
        ensures
            match r {
                Some(i) => strayed(self@.commits, self@.prepare_ts) == Some(i as int),
                None => strayed(self@.commits, self@.prepare_ts) is None,
            },
    {
        let mut found: Option<usize> = None;
        let mut i: usize = 0;
        while i < self.commits.len()
            invariant
                i <= self.commits@.len(),
                match found {
                    Some(k) => strayed(self.commits@.take(i as int), self.prepare_ts) == Some(
                        k as int,
                    ),
                    None => strayed(self.commits@.take(i as int), self.prepare_ts) is None,
                },
            decreases self.commits@.len() - i,
        {
            assert(self.commits@.take(i + 1).drop_last() =~= self.commits@.take(i as int));
            if found.is_none() && self.commits[i] != self.prepare_ts {
                found = Some(i);
            }
            i += 1;
        }
        assert(self.commits@.take(i as int) =~= self.commits@);
        found
    }

    fn conclude(&mut self, metrics: &mut MetricsRecorder)
        requires
            old(self)@.is_sound(),
            old(self)@.commits.len() == old(self)@.participants.len(),
        ensures
            final(self)@ == old(self)@.concluded().course,
            final(metrics)@ == old(metrics)@ + old(self)@.concluded().samples,
    {
        let ghost before = metrics@;
        match self.find_strayed() {
            Some(i) => {
                proof {
                    lemma_strayed(self.commits@, self.prepare_ts);
                }
                let participant = PartitionId(self.participants[i]);
                let mut s: String = String::new();
                s.append("Participant ");
                participant.push_to(&mut s);
                s.append(" committed at ts=");
                text::push_dec(&mut s, self.commits[i]);
                s.append(" but coordinator assigned ts=");
                text::push_dec(&mut s, self.prepare_ts);
                assert(s@ =~= committed_elsewhere(
                    participant,
                    self.commits@[i as int],
                    self.prepare_ts,
                ).text);
                self.fail(CommitError::new(s));
                assert(metrics@ =~= before + Seq::<Measured>::empty());
            },
            None => {
                metrics::log_two_phase_prepare_attempts(metrics, self.attempt + 1);
                metrics::log_two_phase_decision(metrics, "commit");
                self.phase = Phase::Done;
                assert(metrics@ =~= before + old(self)@.concluded().samples);
            },
        }
    }

    /// Takes in how the last step went, and decides what comes next.
    ///
    /// All participants commit only after all have prepared and the decision is
    /// recorded. If one does not prepare, those that have are rolled back, and so
    /// is the one itself where it may have. A timestamp that has passed for a
    /// participant is given up for a newer one, a limited number of times.
    pub fn advance(&mut self, metrics: &mut MetricsRecorder, event: Event)
        requires
            old(self)@.is_sound(),
        ensures
            final(self)@ == old(self)@.next(event@).course,
            final(metrics)@ == old(metrics)@ + old(self)@.next(event@).samples,
            final(self)@.is_sound(),
    {
        let ghost before = metrics@;
        assert(metrics@ =~= before + Seq::<Measured>::empty());
        let phase: Phase = self.phase;
        match (phase, event) {
            (Phase::Allocate, Event::Allocated(id, ts)) => {
                self.transaction_id = id;
                self.prepare_ts = ts;
                self.phase = Phase::Prepare(0);
            },
            (Phase::Allocate, Event::Failed(e)) => {
                self.fail(e);
            },
            (Phase::Prepare(i), Event::Prepared(ts)) => {
                let participant = PartitionId(self.participants[i]);
                match verify_prepare_result(
                    participant,
                    self.prepare_ts,
                    PrepareResult { prepare_ts: ts },
                ) {
                    Err(e) => {
                        let reason: String = e.message.as_str().to_owned();
                        self.prepare_failed(metrics, i, e, reason);
                    },
                    Ok(()) => {
                        if i + 1 < self.participants.len() {
                            self.phase = Phase::Prepare(i + 1);
                        } else {
                            self.phase = Phase::RecordCommit;
                        }
                    },
                }
            },
            (Phase::Prepare(i), Event::Failed(e)) => {
                let reason: String = e.message.as_str().to_owned();
                self.prepare_failed(metrics, i, e, reason);
            },
            (Phase::Prepare(i), Event::Refused(e, reason)) => {
                self.prepare_failed(metrics, i, e, reason);
            },
            (Phase::RecordRollback(n), Event::Done) => {
                self.phase = Phase::Rollback(n);
            },
            (Phase::RecordRollback(_), Event::Failed(e)) => {
                let mut s: String = String::new();
                s.append("2PC Coordinator: failed to write rollback decision for txn=");
                s.append(self.transaction_id.as_str());
                assert(s@ =~= rollback_not_recorded(self.transaction_id@));
                let e = e.context(s.as_str());
                self.fail(e);
            },
            (Phase::Rollback(n), Event::Done) => {
                self.phase = Phase::MarkRolledBack(n);
            },
            (Phase::Rollback(n), Event::Failed(e)) => {
                if errors::message_says_unknown(e.message.as_str()) {
                    self.phase = Phase::MarkRolledBack(n);
                } else {
                    self.roll_on(metrics, n);
                }
            },
            (Phase::MarkRolledBack(n), Event::Done) => {
                self.roll_on(metrics, n);
            },
            (Phase::MarkRolledBack(n), Event::Failed(_)) => {
                self.roll_on(metrics, n);
            },
            (Phase::RecordCommit, Event::Done) => {
                self.phase = Phase::Commit(0);
            },
            (Phase::RecordCommit, Event::Failed(e)) => {
                let mut s: String = String::new();
                s.append("2PC Coordinator: failed to write commit decision for txn=");
                s.append(self.transaction_id.as_str());
                assert(s@ =~= commit_not_recorded(self.transaction_id@));
                let e = e.context(s.as_str());
                self.fail(e);
            },
            (Phase::Commit(i), Event::Committed(ts)) => {
                self.commits.push(ts);
                self.phase = Phase::MarkCommitted(i);
            },
            (Phase::Commit(_), Event::Failed(e)) => {
                metrics::log_two_phase_error(metrics, "commit");
                self.fail(e);
                assert(metrics@ =~= before + old(self)@.next(event@).samples);
            },
            (Phase::MarkCommitted(i), Event::Done) => {
                if i + 1 < self.participants.len() {
                    self.phase = Phase::Commit(i + 1);
                } else {
                    self.conclude(metrics);
                }
            },
            (Phase::MarkCommitted(i), Event::Failed(e)) => {
                let participant = PartitionId(self.participants[i]);
                let mut s: String = String::new();
                s.append("2PC Coordinator: participant ");
                participant.push_to(&mut s);
                s.append(" committed txn=");
                s.append(self.transaction_id.as_str());
                s.append(" but resolution acknowledgement failed");
                assert(s@ =~= commit_not_marked(participant, self.transaction_id@));
                let e = e.context(s.as_str());
                self.fail(e);
            },
            _ => {},
        }
    }
}

/// Said of a transaction that needs no coordinator.
pub open spec fn needs_no_coordinator() -> Refusal {
    committer::refused("2PC coordinator called for a local single-partition transaction"@)
}

/// The course of a transaction that has been routed.
pub open spec fn begun(participants: Seq<u32>, source_partition: Option<PartitionId>) -> Course {
    Course {
        participants,
        source_partition,
        phase: Phase::Allocate,
        id: Seq::empty(),
        attempt: 0,
        prepare_ts: 0,
        commits: Seq::empty(),
        error: None,
        reason: Seq::empty(),
        retrying: false,
    }
}

/// What is measured when a transaction has been routed: where its conflict
/// checks belong, and how many participants there are.
pub open spec fn routing_measured(plan: Plan, participants: nat) -> Seq<Measured> {
    plan.measured().push(
        metrics::observed(
            "DATABASE_TWO_PHASE_PARTICIPANTS_TOTAL"@,
            participants as int,
            metrics::unlabelled(),
        ),
    )
}

/// Begins a two-phase commit of a transaction that this node cannot commit
/// alone. The participants are the owners of its writes, in order.
pub fn coordinate_two_phase_commit(
    metrics: &mut MetricsRecorder,
    transaction: &FinalTransaction,
    write_source: &WriteSource,
    partition_map: &PartitionMap,
) -> (r: Result<Coordination, CommitError>)
    ensures
        ({
            let owners = super::owned(
                transaction.writes@,
                transaction.table_mapping.tables@,
                partition_map@,
                write_source@,
            );
            let participants = ordered::ascending_u32(owners.dom());
            let plan = conflict_resolver::plan_of(
                transaction.reads.tablets(),
                transaction.table_mapping.tables@,
                partition_map@,
                write_source@,
                owners,
            );
            match super::classified(owners, partition_map@.local) {
                Classification::SinglePartition => {
                    &&& r matches Err(e) && e@ == needs_no_coordinator()
                    &&& final(metrics)@ == old(metrics)@
                },
                Classification::RemoteSinglePartition { owner } => {
                    &&& r matches Ok(c) && c@ == begun(participants, Some(owner))
                    &&& final(metrics)@ == old(metrics)@ + routing_measured(
                        plan,
                        participants.len(),
                    )
                },
                Classification::CrossPartition { .. } => {
                    &&& r matches Ok(c) && c@ == begun(participants, None)
                    &&& final(metrics)@ == old(metrics)@ + routing_measured(
                        plan,
                        participants.len(),
                    )
                },
            }
        }),
        r matches Ok(c) ==> (c@.participants.len() < usize::MAX ==> c@.is_sound()),
{
    let source_partition: Option<PartitionId> = match super::classify_transaction(
        transaction,
        partition_map,
        write_source,
    ) {
        TransactionClassification::SinglePartition => {
            return Err(
                CommitError::new(
                    "2PC coordinator called for a local single-partition transaction".to_owned(),
                ),
            );
        },
        TransactionClassification::RemoteSinglePartition { owner } => Some(owner),
        TransactionClassification::CrossPartition { partitions: _ } => None,
    };
    let indexes = super::participant_write_indexes(transaction, partition_map, write_source);
    let plan = ConflictPlan::build(
        &transaction.reads,
        &transaction.table_mapping,
        partition_map,
        write_source,
        &indexes,
    );
    plan.record_metrics(metrics);
    let participants = ordered::keys_u32(&indexes);
    proof {
        let owners = super::listed(indexes@);
        assert(owners.dom() =~= indexes@.dom());
        assert(participants@.len() > 0) by {
            if participants@.len() == 0 {
                assert(participants@.to_set() =~= Set::<u32>::empty());
            }
        }
    }
    let r = Coordination::start(metrics, participants, source_partition);
    assert(metrics@ =~= old(metrics)@ + routing_measured(plan@, participants@.len()));
    Ok(r)
}

proof fn lemma_strayed(commits: Seq<u64>, ts: u64)
    ensures
        strayed(commits, ts) matches Some(i) ==> 0 <= i < commits.len(),
        strayed(commits, ts) is None ==> forall|i: int|
            0 <= i < commits.len() ==> (#[trigger] commits[i]) == ts,
    decreases commits.len(),
{
    if commits.len() > 0 {
        lemma_strayed(commits.drop_last(), ts);
        if strayed(commits, ts) is None {
            assert forall|i: int| 0 <= i < commits.len() implies (#[trigger] commits[i]) == ts by {
                if i < commits.len() - 1 {
                    assert(commits.drop_last()[i] == commits[i]);
                }
            }
        }
    }
}

/// A decision to commit comes only after every participant has prepared: it
/// follows the last one's answer, at the timestamp it was asked for.
pub proof fn commit_needs_every_participant(course: Course, news: News)
    requires
        course.is_sound(),
        course.phase != Phase::RecordCommit,
        course.next(news).course.phase == Phase::RecordCommit,
    ensures
        course.phase == Phase::Prepare((course.participants.len() - 1) as usize),
        news == News::Prepared(course.prepare_ts),
{
}

/// No participant is told to commit before the decision to commit is recorded.
pub proof fn commits_follow_the_decision(course: Course, news: News)
    requires
        course.is_sound(),
        course.next(news).course.phase is Commit,
        !(course.phase is Commit),
    ensures
        course.phase == Phase::RecordCommit && news == News::Done || course.phase is MarkCommitted,
{
}

/// Once a decision to commit is recorded nobody is rolled back.
pub proof fn commits_are_not_taken_back(course: Course, news: News)
    requires
        course.is_sound(),
        course.phase is Commit || course.phase is MarkCommitted,
    ensures
        ({
            let phase = course.next(news).course.phase;
            phase is Commit || phase is MarkCommitted || phase is Done || phase is Failed
        }),
{
}

/// When a participant does not prepare, everyone who has prepared is rolled
/// back, and so is the participant itself where it may have prepared.
pub proof fn failed_prepares_are_rolled_back(
    course: Course,
    i: usize,
    e: Refusal,
    reason: Seq<char>,
    news: News,
)
    requires
        course.is_sound(),
        course.phase == Phase::Prepare(i),
        news == News::Failed(e) || news == News::Refused(e, reason),
    ensures
        i > 0 || errors::suggests_no_contact(e.text) ==> ({
            let phase = course.next(news).course.phase;
            phase == Phase::RecordRollback(i) && !errors::suggests_no_contact(e.text) || phase
                == Phase::RecordRollback((i + 1) as usize) && errors::suggests_no_contact(e.text)
        }),
{
}

/// A transaction that is reported as committed was committed by every
/// participant, at the timestamp that is reported.
pub proof fn reported_commits_are_everywhere(course: Course, news: News)
    requires
        course.is_sound(),
        course.phase != Phase::Done,
        course.next(news).course.phase == Phase::Done,
    ensures
        ({
            let end = course.next(news).course;
            &&& end.commits.len() == end.participants.len()
            &&& forall|i: int| 0 <= i < end.commits.len() ==> (#[trigger] end.commits[i]) == end.prepare_ts
        }),
{
    lemma_strayed(course.commits, course.prepare_ts);
}

/// A new timestamp is tried a limited number of times.
pub proof fn attempts_are_bounded(course: Course, news: News)
    requires
        course.is_sound(),
    ensures
        course.next(news).course.attempt < MAX_PREPARE_TS_RETRIES,
        course.next(news).course.attempt >= course.attempt,
{
}

/// Whatever happens, a transaction keeps its participants and its source, and once a
/// timestamp is drawn it stays until the transaction is tried again.
pub proof fn transactions_keep_their_participants(course: Course, news: News)
    ensures
        course.next(news).course.participants == course.participants,
        course.next(news).course.source_partition == course.source_partition,
        course.phase != Phase::Allocate ==> course.next(news).course.prepare_ts
            == course.prepare_ts && course.next(news).course.id == course.id,
{
}

/// A transaction that is given a timestamp is prepared at it, from the first
/// participant to the last, and then the decision to commit is recorded.
pub proof fn participants_are_prepared_in_turn(course: Course, i: usize, id: Seq<char>, ts: u64, e: Refusal)
    requires
        course.is_sound(),
    ensures
        course.phase == Phase::Allocate ==> {
            let next = course.next(News::Allocated(id, ts)).course;
            let failed = course.next(News::Failed(e)).course;
            &&& next.phase == Phase::Prepare(0) && next.id == id && next.prepare_ts == ts
                && next.attempt == course.attempt
            &&& failed.phase == Phase::Failed && failed.error == Some(e)
        },
        course.phase == Phase::Prepare(i) ==> {
            let next = course.next(News::Prepared(course.prepare_ts)).course;
            &&& i + 1 < course.participants.len() ==> next.phase == Phase::Prepare((i + 1) as usize)
            &&& i + 1 == course.participants.len() ==> next.phase == Phase::RecordCommit
            &&& next == (Course { phase: next.phase, ..course })
        },
        course.phase == Phase::Prepare(i) && ts != course.prepare_ts ==> {
            let next = course.next(News::Prepared(ts)).course;
            &&& next.phase is RecordRollback || next.phase is Failed || next.phase is Allocate
            &&& next.error is Some
        },
{
}

/// A participant that could not prepare ends the attempt: the error is kept, and it
/// is tried again exactly where the timestamp had passed and attempts are left.
pub proof fn passed_timestamps_are_tried_again(
    course: Course,
    i: usize,
    e: Refusal,
    reason: Seq<char>,
)
    requires
        course.is_sound(),
        course.phase == Phase::Prepare(i),
    ensures
        ({
            let again = text::occurs(e.text, "2PC Prepare assigned ts="@) && course.attempt + 1 < 8;
            let failed = course.next(News::Failed(e)).course;
            let refused = course.next(News::Refused(e, reason)).course;
            &&& failed.error == Some(e) && refused.error == Some(e)
            &&& failed.reason == e.text && refused.reason == reason
            &&& failed.phase is RecordRollback <==> i > 0 || errors::suggests_no_contact(e.text)
            &&& refused.phase == failed.phase
            &&& failed.phase is RecordRollback ==> (failed.retrying <==> again)
                && failed.attempt == course.attempt
            &&& failed.phase == Phase::Allocate ==> again && failed.attempt == course.attempt + 1
            &&& !(failed.phase is RecordRollback) && again ==> failed.phase == Phase::Allocate
            &&& !(failed.phase is RecordRollback) && !again ==> failed.phase == Phase::Failed
        }),
{
}

/// A rollback is recorded before anyone is told, reaches each affected participant
/// from the last to the first, whatever becomes of the others, and only then is the
/// transaction tried again or given up with the error that began it.
pub proof fn rollbacks_reach_every_participant(course: Course, n: usize, e: Refusal)
    requires
        course.is_sound(),
        n > 0,
    ensures
        course.phase == Phase::RecordRollback(n) ==> {
            &&& course.next(News::Done).course == (Course { phase: Phase::Rollback(n), ..course })
            &&& course.next(News::Failed(e)).course.phase == Phase::Failed
        },
        course.phase == Phase::Rollback(n) ==> {
            let done = course.next(News::Done).course;
            let failed = course.next(News::Failed(e)).course;
            let unknown = text::occurs(e.text, "unknown transaction"@);
            &&& done == (Course { phase: Phase::MarkRolledBack(n), ..course })
            &&& unknown ==> failed == done
            &&& !unknown && n > 1 ==> failed == (Course {
                phase: Phase::Rollback((n - 1) as usize),
                ..course
            })
            &&& !unknown && n == 1 && course.retrying ==> failed.phase == Phase::Allocate
                && failed.attempt == course.attempt + 1 && !failed.retrying
            &&& !unknown && n == 1 && !course.retrying ==> failed.phase == Phase::Failed
                && failed.error == course.error
        },
        course.phase == Phase::MarkRolledBack(n) ==> {
            let done = course.next(News::Done).course;
            &&& course.next(News::Failed(e)).course == done
            &&& n > 1 ==> done == (Course { phase: Phase::Rollback((n - 1) as usize), ..course })
            &&& n == 1 && course.retrying ==> done.phase == Phase::Allocate && done.attempt
                == course.attempt + 1 && !done.retrying
            &&& n == 1 && !course.retrying ==> done.phase == Phase::Failed && done.error
                == course.error
        },
{
}

proof fn lemma_first_strayed(commits: Seq<u64>, ts: u64)
    ensures
        match strayed(commits, ts) {
            Some(i) => 0 <= i < commits.len() && commits[i] != ts && forall|j: int|
                0 <= j < i ==> (#[trigger] commits[j]) == ts,
            None => forall|j: int| 0 <= j < commits.len() ==> (#[trigger] commits[j]) == ts,
        },
    decreases commits.len(),
{
    if commits.len() > 0 {
        let front = commits.drop_last();
        let n = commits.len() - 1;
        lemma_first_strayed(front, ts);
        assert(commits[n] == commits.last());
        match strayed(front, ts) {
            Some(i) => {
                assert(front[i] == commits[i]);
                assert forall|j: int| 0 <= j < i implies (#[trigger] commits[j]) == ts by {
                    assert(front[j] == commits[j]);
                }
            },
            None => {
                assert forall|j: int| 0 <= j < n implies (#[trigger] commits[j]) == ts by {
                    assert(front[j] == commits[j]);
                }
            },
        }
    }
}

/// Once the decision is recorded each participant is told to commit, from the first
/// to the last, what it answers is remembered, and the transaction is done exactly
/// where all of them committed at its timestamp.
pub proof fn decided_commits_reach_every_participant(course: Course, i: usize, ts: u64, e: Refusal)
    requires
        course.is_sound(),
    ensures
        course.phase == Phase::RecordCommit ==> {
            &&& course.next(News::Done).course == (Course { phase: Phase::Commit(0), ..course })
            &&& course.next(News::Failed(e)).course.phase == Phase::Failed
        },
        course.phase == Phase::Commit(i) ==> {
            let told = course.next(News::Committed(ts)).course;
            let failed = course.next(News::Failed(e)).course;
            &&& told.phase == Phase::MarkCommitted(i)
            &&& told.commits == course.commits.push(ts)
            &&& told == (Course { phase: told.phase, commits: told.commits, ..course })
            &&& failed.phase == Phase::Failed && failed.error == Some(e)
        },
        course.phase == Phase::MarkCommitted(i) ==> {
            let done = course.next(News::Done).course;
            let everywhere = forall|j: int|
                0 <= j < course.commits.len() ==> (#[trigger] course.commits[j])
                    == course.prepare_ts;
            &&& course.next(News::Failed(e)).course.phase == Phase::Failed
            &&& i + 1 < course.participants.len() ==> done == (Course {
                phase: Phase::Commit((i + 1) as usize),
                ..course
            })
            &&& i + 1 == course.participants.len() && everywhere ==> done == (Course {
                phase: Phase::Done,
                ..course
            })
            &&& i + 1 == course.participants.len() && !everywhere ==> done.phase == Phase::Failed
                && done.error is Some
        },
{
    lemma_first_strayed(course.commits, course.prepare_ts);
}

/// A transaction begins without a timestamp and on its first attempt.
pub proof fn transactions_begin_afresh(participants: Seq<u32>, source_partition: Option<PartitionId>)
    ensures
        ({
            let course = begun(participants, source_partition);
            &&& course.participants == participants
            &&& course.source_partition == source_partition
            &&& course.phase == Phase::Allocate
            &&& course.attempt == 0
            &&& course.commits.len() == 0
            &&& course.error is None
            &&& !course.retrying
        }),
{
}

/// A participant whose timestamp has passed says so in a way that the coordinator
/// understands: the transaction is tried again while attempts are left. One that does
/// not know a transaction that is rolled back counts as rolled back.
pub proof fn participants_are_understood(course: Course, i: usize, n: usize, ts: u64, floor: u64, id: Seq<char>)
    requires
        course.is_sound(),
        course.attempt + 1 < 8,
    ensures
        course.phase == Phase::Prepare(i) ==> {
            let next = course.next(
                News::Failed(committer::staging::timestamp_passed(ts, floor)),
            ).course;
            next.retrying || (next.phase == Phase::Allocate && next.attempt == course.attempt + 1)
        },
        course.phase == Phase::Rollback(n) ==> course.next(
            News::Failed(committer::prepared::unknown_rollback(id)),
        ).course.phase == Phase::MarkRolledBack(n),
{
    let passed = committer::staging::timestamp_passed(ts, floor).text;
    let rest = text::dec(ts as nat) + " but this participant requires ts>="@ + text::dec(
        floor as nat,
    );
    text::phrases_occur_between_others(Seq::empty(), "2PC Prepare assigned ts="@, rest);
    assert(passed =~= Seq::<char>::empty() + "2PC Prepare assigned ts="@ + rest);
    let unknown = committer::prepared::unknown_rollback(id).text;
    reveal_strlit("2PC RollbackPrepared: unknown transaction ");
    reveal_strlit("2PC RollbackPrepared: ");
    reveal_strlit("unknown transaction");
    reveal_strlit(" ");
    assert("2PC RollbackPrepared: unknown transaction "@ =~= "2PC RollbackPrepared: "@
        + "unknown transaction"@ + " "@);
    text::phrases_occur_between_others(
        "2PC RollbackPrepared: "@,
        "unknown transaction"@,
        " "@ + id,
    );
    assert(unknown =~= "2PC RollbackPrepared: "@ + "unknown transaction"@ + (" "@ + id));
}

/// A participant that committed at another timestamp is named, with its timestamp
/// first and the one it was asked for second; one that could not be marked is named
/// with the transaction.
pub proof fn straying_commits_are_named(
    participant: PartitionId,
    ts: u64,
    asked: u64,
    id: Seq<char>,
)
    ensures
        committed_elsewhere(participant, ts, asked).text == "Participant "@
            + participant.text() + " committed at ts="@ + text::dec(ts as nat)
            + " but coordinator assigned ts="@ + text::dec(asked as nat),
        committed_elsewhere(participant, ts, asked).occ is None,
        commit_not_marked(participant, id) == "2PC Coordinator: participant "@
            + participant.text() + " committed txn="@ + id
            + " but resolution acknowledgement failed"@,
        rollback_not_recorded(id) == "2PC Coordinator: failed to write rollback decision for txn="@
            + id,
        commit_not_recorded(id) == "2PC Coordinator: failed to write commit decision for txn="@
            + id,
{
}

/// How many take part in a transaction is measured after what each of them checks.
pub proof fn participants_are_counted(plan: Plan, participants: nat)
    requires
        participants <= i128::MAX,
    ensures
        routing_measured(plan, participants).len() == plan.measured().len() + 1,
        routing_measured(plan, participants).last().amount == metrics::Amount::Count(
            participants as i128,
        ),
        routing_measured(plan, participants).last().metric
            == "DATABASE_TWO_PHASE_PARTICIPANTS_TOTAL"@,
        routing_measured(plan, participants).drop_last() == plan.measured(),
{
    assert(routing_measured(plan, participants).drop_last() =~= plan.measured());
}

} // verus!
