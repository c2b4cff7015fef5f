//! The outbox between Raft and the replication log.
//!
//! A delta is put here before it is published and taken out afterwards. What is
//! left, because publishing failed or the node stopped in between, is published
//! again by whoever leads.
use super::{CommitError, Committer};
use crate::text;
use crate::text_map::TextMap;
use vstd::prelude::*;
use vstd::string::*;

verus! {

/// The name of the record of the delta at `ts`.
pub fn raft_nats_outbox_key(ts: u64) -> (r: String)
    ensures
        r@ == text::dec(ts as nat),
{
    let mut s: String = String::new();
    text::push_dec(&mut s, ts);
    assert(s@ =~= text::dec(ts as nat));
    s
}

/// Puts the record of the delta at `ts` into the outbox.
pub fn add_raft_nats_outbox_delta<V>(records: &mut TextMap<V>, ts: u64, record: V)
    ensures
        final(records)@ == old(records)@.insert(text::dec(ts as nat), record),
{
    records.insert(raft_nats_outbox_key(ts), record);
}

/// Takes the record of the delta at `ts` out of the outbox.
pub fn delete_raft_nats_outbox_delta<V>(records: &mut TextMap<V>, ts: u64)
    ensures
        final(records)@ == old(records)@.remove(text::dec(ts as nat)),
{
    let key = raft_nats_outbox_key(ts);
    let removed = records.remove(key.as_str());
}

/// What went wrong with the outbox.
#[derive(Clone, Copy, Debug)]
pub enum OutboxStep<'a> {
    /// The stored records could not be read.
    ParseRecords,
    /// The records could not be turned into what is stored.
    SerializeRecords,
    /// A delta could not be put into an envelope.
    EncodeDelta,
    /// An envelope could not be turned into a record.
    SerializeDelta,
    /// The record of this name could not be read.
    ParseDelta(&'a str),
    /// The envelope in the record of this name could not be opened.
    DecodeDelta(&'a str),
}

impl<'a> OutboxStep<'a> {
    /// Said in front of what went wrong.
    pub open spec fn text(self) -> Seq<char> {
        match self {
            OutboxStep::ParseRecords => "Failed to parse Raft->NATS outbox records"@,
            OutboxStep::SerializeRecords => "Failed to serialize Raft->NATS outbox records"@,
            OutboxStep::EncodeDelta => "Failed to encode Raft->NATS outbox delta"@,
            OutboxStep::SerializeDelta => "Failed to serialize Raft->NATS outbox delta"@,
            OutboxStep::ParseDelta(key) => "Failed to parse Raft->NATS outbox delta "@ + key@,
            OutboxStep::DecodeDelta(key) => "Failed to decode Raft->NATS outbox delta "@ + key@,
        }
    }
}

/// Says what went wrong with the outbox.
pub fn outbox_failure(step: OutboxStep, cause: CommitError) -> (r: CommitError)
    ensures
        r@ == super::in_context(step.text(), cause@),
{
    let mut s: String = String::new();
    match step {
        OutboxStep::ParseRecords => {
            s.append("Failed to parse Raft->NATS outbox records");
        },
        OutboxStep::SerializeRecords => {
            s.append("Failed to serialize Raft->NATS outbox records");
        },
        OutboxStep::EncodeDelta => {
            s.append("Failed to encode Raft->NATS outbox delta");
        },
        OutboxStep::SerializeDelta => {
            s.append("Failed to serialize Raft->NATS outbox delta");
        },
        OutboxStep::ParseDelta(key) => {
            s.append("Failed to parse Raft->NATS outbox delta ");
            s.append(key);
        },
        OutboxStep::DecodeDelta(key) => {
            s.append("Failed to decode Raft->NATS outbox delta ");
            s.append(key);
        },
    }
    assert(s@ =~= step.text());
    cause.context(s.as_str())
}

/// What a replay of the outbox does next.
#[derive(Clone, Copy, Debug, PartialEq, Eq, Structural)]
pub enum ReplayAction {
    /// Publish the record at this position.
    Publish(usize),
    /// Take the record at this position, which has been published, out.
    Clear(usize),
    /// All records have been published.
    Done(usize),
}

/// Publishing everything in the outbox, in the order of the records' names.
#[derive(Clone, Copy, Debug, PartialEq, Eq, Structural)]
pub struct Replay {
    /// How many records there are.
    pub total: usize,
    /// How many have been published and taken out.
    pub replayed: usize,
    /// Whether the next one has been published and is still in the outbox.
    pub published: bool,
}

impl Replay {
    /// What is done next.
    pub open spec fn next(self) -> ReplayAction {
        if self.replayed >= self.total {
            ReplayAction::Done(self.replayed)
        } else if self.published {
            ReplayAction::Clear(self.replayed)
        } else {
            ReplayAction::Publish(self.replayed)
        }
    }

    /// Begins with an outbox of this many records.
    pub fn start(total: usize) -> (r: Self)
        ensures
            r == (Replay { total, replayed: 0, published: false }),
    {
        Replay { total, replayed: 0, published: false }
    }

    /// What is done next.
    pub fn action(&self) -> (r: ReplayAction)
        ensures
            r == self.next(),
    {
        if self.replayed >= self.total {
            ReplayAction::Done(self.replayed)
        } else if self.published {
            ReplayAction::Clear(self.replayed)
        } else {
            ReplayAction::Publish(self.replayed)
        }
    }

    /// Goes on, given how the last action went. A failure ends the replay; what
    /// has not been published stays in the outbox.
    pub fn advance(&mut self, result: Result<(), CommitError>) -> (r: Result<(), CommitError>)
        ensures
            match result {
                Err(e) => r matches Err(x) && x@ == e@ && *final(self) == *old(self),
                Ok(()) => {
                    &&& r is Ok
                    &&& *final(self) == match old(self).next() {
                        ReplayAction::Publish(_) => Replay { published: true, ..*old(self) },
                        ReplayAction::Clear(i) => Replay {
                            total: old(self).total,
                            replayed: (i + 1) as usize,
                            published: false,
                        },
                        ReplayAction::Done(_) => *old(self),
                    }
                },
            },
    {
        if let Err(e) = result {
            return Err(e);
        }
        match self.action() {
            ReplayAction::Publish(_) => {
                self.published = true;
            },
            ReplayAction::Clear(i) => {
                self.replayed = i + 1;
                self.published = false;
            },
            ReplayAction::Done(_) => {},
        }
        Ok(())
    }
}

impl Committer {
    /// Whether this node publishes what is left in the outbox: where there are
    /// several partitions, the leader does.
    pub fn should_replay_raft_nats_outbox(&self) -> (r: bool)
        ensures
            r == (self@.is_partitioned() && self@.leads()),
    {
        self.is_partitioned() && self.leads()
    }
}

/// Taking a delta out of the outbox undoes putting it in.
pub proof fn clearing_undoes_recording<V>(records: Map<Seq<char>, V>, ts: u64, record: V)
    requires
        !records.contains_key(text::dec(ts as nat)),
    ensures
        records.insert(text::dec(ts as nat), record).remove(text::dec(ts as nat)) == records,
{
    assert(records.insert(text::dec(ts as nat), record).remove(text::dec(ts as nat)) =~= records);
}

/// Deltas at different timestamps have different records.
pub proof fn records_do_not_collide(a: u64, b: u64)
    requires
        text::dec(a as nat) == text::dec(b as nat),
    ensures
        a == b,
{
    text::lemma_value_of_dec(a as nat);
    text::lemma_value_of_dec(b as nat);
}

/// A replay publishes each record and then clears it, from the first to the last, and
/// is done once all are cleared.
pub proof fn records_are_published_before_they_are_cleared(replay: Replay)
    ensures
        replay.replayed < replay.total && !replay.published ==> replay.next()
            == ReplayAction::Publish(replay.replayed),
        replay.replayed < replay.total && replay.published ==> replay.next() == ReplayAction::Clear(
            replay.replayed,
        ),
        replay.replayed >= replay.total ==> replay.next() == ReplayAction::Done(replay.replayed),
{
}

} // verus!
