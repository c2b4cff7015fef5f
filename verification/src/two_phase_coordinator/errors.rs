//! What the errors of participants mean for a coordinator.
use crate::partition;
use crate::text;
use vstd::prelude::*;
use vstd::string::*;

verus! {

/// `anyhow::Error`, opaque here.
#[verifier::external_type_specification]
#[verifier::external_body]
pub struct ExAnyhowError(anyhow::Error);

/// What an error and its causes say, outermost first.
pub uninterp spec fn error_messages(err: anyhow::Error) -> Seq<Seq<char>>;

/// What an error and its causes say, outermost first.
///
/// Calls [`anyhow::Error::chain`], which visits the error and then each cause in
/// turn, and has each print itself. What they print is given a name here and not
/// described further.
#[verifier::external_body]
fn chain_messages(err: &anyhow::Error) -> (r: Vec<String>)
    ensures
        partition::texts(r@) == error_messages(*err),
{
    err.chain().map(|cause| cause.to_string()).collect()
}

/// One of `messages` holds `needle`.
pub open spec fn some_holds(messages: Seq<Seq<char>>, needle: Seq<char>) -> bool {
    exists|i: int| 0 <= i < messages.len() && text::occurs(#[trigger] messages[i], needle)
}

/// The phrase in which a participant says that a timestamp has passed.
pub open spec fn passed_phrase() -> Seq<char> {
    "2PC Prepare assigned ts="@
}

/// Whether one of `messages` says that a prepare's timestamp has passed.
pub fn messages_say_timestamp_passed(messages: &Vec<String>) -> (r: bool)
    ensures
        r == some_holds(partition::texts(messages@), passed_phrase()),
{
    let ghost all = partition::texts(messages@);
    let mut i: usize = 0;
    while i < messages.len()
        invariant
            i <= messages@.len(),
            all == partition::texts(messages@),
            forall|k: int| 0 <= k < i ==> !text::occurs(#[trigger] all[k], passed_phrase()),
        decreases messages@.len() - i,
    {
        assert(all[i as int] == messages@[i as int]@);
        if text::contains(messages[i].as_str(), "2PC Prepare assigned ts=") {
            assert(text::occurs(all[i as int], passed_phrase()));
            return true;
        }
        i += 1;
    }
    false
}

/// Whether a prepare failed because its timestamp has passed, so that a newer
/// one may do.
pub fn is_retryable_prepare_ts_error(err: &anyhow::Error) -> (r: bool)
    ensures
        r == some_holds(error_messages(*err), passed_phrase()),
{
    let messages = chain_messages(err);
    messages_say_timestamp_passed(&messages)
}

/// The message says that the participant may not have been reached.
pub open spec fn suggests_no_contact(message: Seq<char>) -> bool {
    let m = text::lowered(message);
    ||| text::occurs(m, "transport error"@)
    ||| text::occurs(m, "connection error"@)
    ||| text::occurs(m, "connection refused"@)
    ||| text::occurs(m, "broken pipe"@)
    ||| text::occurs(m, "deadline has elapsed"@)
    ||| text::occurs(m, "timed out"@)
    ||| text::occurs(m, "unavailable"@)
    ||| text::occurs(m, "no elected raft leader"@)
    ||| text::occurs(m, "missing raft_peers entry for raft leader"@)
    ||| text::occurs(m, "failed to connect to raft leader"@)
    ||| text::occurs(m, "leader prepare failed"@)
    ||| text::occurs(m, "leader commitprepared failed"@)
    ||| text::occurs(m, "leader rollbackprepared failed"@)
}

/// Whether a message says that the participant may not have been reached.
pub fn message_suggests_no_contact(message: &str) -> (r: bool)
    ensures
        r == suggests_no_contact(message@),
{
    let m: Vec<char> = text::ascii_lowercase(message);
    text::chars_contain(&m, "transport error") || text::chars_contain(&m, "connection error")
        || text::chars_contain(&m, "connection refused") || text::chars_contain(&m, "broken pipe")
        || text::chars_contain(&m, "deadline has elapsed") || text::chars_contain(&m, "timed out")
        || text::chars_contain(&m, "unavailable") || text::chars_contain(
        &m,
        "no elected raft leader",
    ) || text::chars_contain(&m, "missing raft_peers entry for raft leader")
        || text::chars_contain(&m, "failed to connect to raft leader") || text::chars_contain(
        &m,
        "leader prepare failed",
    ) || text::chars_contain(&m, "leader commitprepared failed") || text::chars_contain(
        &m,
        "leader rollbackprepared failed",
    )
}

/// The messages in one line, with a colon between an error and its cause.
pub fn full_message(messages: &Vec<String>) -> (r: String)
    ensures
        r@ == text::joined(partition::texts(messages@), ": "@),
{
    let ghost all = partition::texts(messages@);
    let mut s: String = String::new();
    let mut i: usize = 0;
    assert(s@ =~= text::joined(all.take(0), ": "@));
    while i < messages.len()
        invariant
            i <= messages@.len(),
            all == partition::texts(messages@),
            s@ == text::joined(all.take(i as int), ": "@),
        decreases messages@.len() - i,
    {
        let ghost before = s@;
        if i > 0 {
            s.append(": ");
        }
        s.append(messages[i].as_str());
        proof {
            assert(all.take(i + 1).drop_last() =~= all.take(i as int));
            assert(all.take(i + 1).last() == messages@[i as int]@);
            if i == 0 {
                assert(s@ =~= messages@[0]@);
                assert(all.take(1)[0] == messages@[0]@);
            }
            assert(s@ =~= text::joined(all.take(i + 1), ": "@));
        }
        i += 1;
    }
    assert(all.take(i as int) =~= all);
    s
}

/// What an error says in one line, with its causes.
pub open spec fn error_line(err: anyhow::Error) -> Seq<char> {
    text::joined(error_messages(err), ": "@)
}

/// Whether the participant may be reached at another address, or at the same
/// one later.
pub fn should_try_next_participant_address(err: &anyhow::Error) -> (r: bool)
    ensures
        r == suggests_no_contact(error_line(*err)),
{
    let messages = chain_messages(err);
    let line = full_message(&messages);
    message_suggests_no_contact(line.as_str())
}

/// Whether a prepare failed in a way that leaves open whether the participant
/// has prepared.
pub fn is_ambiguous_prepare_error(err: &anyhow::Error) -> (r: bool)
    ensures
        r == suggests_no_contact(error_line(*err)),
{
    should_try_next_participant_address(err)
}

/// The message says that the participant knows nothing of the transaction.
pub open spec fn says_unknown(message: Seq<char>) -> bool {
    text::occurs(message, "unknown transaction"@)
}

/// Whether a message says that the participant knows nothing of the transaction.
pub fn message_says_unknown(message: &str) -> (r: bool)
    ensures
        r == says_unknown(message@),
{
    text::contains(message, "unknown transaction")
}

/// Whether a rollback failed because there was nothing to roll back.
pub fn is_unknown_rollback_error(err: &anyhow::Error) -> (r: bool)
    ensures
        r == says_unknown(error_line(*err)),
{
    let messages = chain_messages(err);
    let line = full_message(&messages);
    message_says_unknown(line.as_str())
}

/// A chain of errors holds a phrase where one of its messages does.
pub proof fn chains_hold_what_their_messages_hold(messages: Seq<Seq<char>>, needle: Seq<char>, i: int)
    ensures
        0 <= i < messages.len() && text::occurs(messages[i], needle) ==> some_holds(
            messages,
            needle,
        ),
        (forall|k: int| 0 <= k < messages.len() ==> !text::occurs(#[trigger] messages[k], needle))
            ==> !some_holds(messages, needle),
{
}

/// Nobody was reached where a message says so in one of these ways, however it is
/// spelled; any other message means that somebody answered.
pub proof fn unreached_nodes_are_told_by_their_messages(message: Seq<char>)
    ensures
        ({
            let m = text::lowered(message);
            suggests_no_contact(message) <==> text::occurs(m, "transport error"@) || text::occurs(
                m,
                "connection error"@,
            ) || text::occurs(m, "connection refused"@) || text::occurs(m, "broken pipe"@)
                || text::occurs(m, "deadline has elapsed"@) || text::occurs(m, "timed out"@)
                || text::occurs(m, "unavailable"@) || text::occurs(m, "no elected raft leader"@)
                || text::occurs(m, "missing raft_peers entry for raft leader"@) || text::occurs(
                m,
                "failed to connect to raft leader"@,
            ) || text::occurs(m, "leader prepare failed"@) || text::occurs(
                m,
                "leader commitprepared failed"@,
            ) || text::occurs(m, "leader rollbackprepared failed"@)
        }),
        says_unknown(message) <==> text::occurs(message, "unknown transaction"@),
        passed_phrase() == "2PC Prepare assigned ts="@,
{
}

} // verus!
