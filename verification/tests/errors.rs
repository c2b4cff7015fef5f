use convex_cluster::committer::outbox::{outbox_failure, OutboxStep};
use convex_cluster::committer::prepared::{redo_failure, RedoStep, RedoUse};
use convex_cluster::committer::raft::{
    commit_proposal_failure, prepare_proposal_failure, ProposalStep,
};
use convex_cluster::committer::write::write_to_persistence;
use convex_cluster::committer::CommitError;
use convex_cluster::partition::PartitionId;

fn cause() -> CommitError {
    CommitError::new("cause".to_string())
}

#[test]
fn failed_proposals_say_what_was_proposed() {
    let partition = PartitionId(2);
    assert_eq!(
        commit_proposal_failure(ProposalStep::Serialize, 7, partition, cause()).message,
        "Failed to serialize commit delta at ts=7 for Raft proposal: cause"
    );
    assert_eq!(
        commit_proposal_failure(ProposalStep::Send, 7, partition, cause()).message,
        format!(
            "Failed to propose commit at ts=7 to Raft partition {}: cause",
            partition.to_text()
        )
    );
    assert_eq!(
        prepare_proposal_failure(ProposalStep::Serialize, "txn", partition, cause()).message,
        "Failed to serialize 2PC prepare for txn=txn for Raft proposal: cause"
    );
    assert_eq!(
        prepare_proposal_failure(ProposalStep::Send, "txn", partition, cause()).message,
        format!(
            "Failed to propose 2PC prepare for txn=txn to Raft partition {}: cause",
            partition.to_text()
        )
    );
}

#[test]
fn failures_of_the_outbox_say_where() {
    let message = |step| outbox_failure(step, cause()).message;
    assert_eq!(
        message(OutboxStep::ParseRecords),
        "Failed to parse Raft->NATS outbox records: cause"
    );
    assert_eq!(
        message(OutboxStep::SerializeRecords),
        "Failed to serialize Raft->NATS outbox records: cause"
    );
    assert_eq!(
        message(OutboxStep::EncodeDelta),
        "Failed to encode Raft->NATS outbox delta: cause"
    );
    assert_eq!(
        message(OutboxStep::SerializeDelta),
        "Failed to serialize Raft->NATS outbox delta: cause"
    );
    assert_eq!(
        message(OutboxStep::ParseDelta("12")),
        "Failed to parse Raft->NATS outbox delta 12: cause"
    );
    assert_eq!(
        message(OutboxStep::DecodeDelta("12")),
        "Failed to decode Raft->NATS outbox delta 12: cause"
    );
}

#[test]
fn failures_of_redo_records_say_where() {
    let message = |step| redo_failure(step, cause()).message;
    assert_eq!(
        message(RedoStep::ParseRecords),
        "2PC: Failed to parse durable redo records: cause"
    );
    assert_eq!(
        message(RedoStep::SerializeRecords),
        "2PC: Failed to serialize redo records: cause"
    );
    assert_eq!(
        message(RedoStep::PersistRecords),
        "2PC: Failed to persist redo records: cause"
    );
    assert_eq!(
        message(RedoStep::DecodeTransaction(RedoUse::Finish, "txn")),
        "2PC: failed to decode participant transaction for redo txn=txn: cause"
    );
    assert_eq!(
        message(RedoStep::DecodeTransaction(RedoUse::Recovery, "txn")),
        "2PC Recovery: failed to decode participant transaction for txn=txn: cause"
    );
}

#[test]
fn failed_writes_name_the_source() {
    assert!(write_to_persistence("mutation", Ok(())).is_ok());
    assert_eq!(
        write_to_persistence("mutation", Err(cause()))
            .unwrap_err()
            .message,
        "Commit (mutation) failed to write to persistence: cause"
    );
}
