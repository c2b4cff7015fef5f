use convex_cluster::two_phase_coordinator::errors::{
    full_message, is_ambiguous_prepare_error, is_retryable_prepare_ts_error, is_unknown_rollback_error,
    message_says_unknown, message_suggests_no_contact, messages_say_timestamp_passed,
    should_try_next_participant_address,
};

#[test]
fn retryable_prepare_ts_error_detects_wrapped_grpc_status() {
    let err = anyhow::Error::msg(
        "Prepare failed: 2PC Prepare assigned ts=10 but this participant requires ts>=20",
    )
    .context("gRPC Prepare failed");
    assert!(is_retryable_prepare_ts_error(&err));
}

#[test]
fn retryable_prepare_ts_error_rejects_unrelated_errors() {
    let err = anyhow::Error::msg("gRPC Prepare failed");
    assert!(!is_retryable_prepare_ts_error(&err));
}

#[test]
fn ambiguous_prepare_error_detects_transport_failure() {
    let err = anyhow::Error::msg(
        "gRPC Prepare failed: status: Unknown, message: \"transport error\", details: [], \
         metadata: MetadataMap { headers: {} }: transport error: connection error: stream \
         closed because of a broken pipe",
    );
    assert!(is_ambiguous_prepare_error(&err));
}

#[test]
fn ambiguous_prepare_error_rejects_application_failure() {
    let err = anyhow::Error::msg(
        "gRPC Prepare failed: status: Internal, message: \"forced prepare failure\"",
    );
    assert!(!is_ambiguous_prepare_error(&err));
}
