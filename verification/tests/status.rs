use ethera_sidecar::xt::{determine_xt_status, PendingXt, XtStatus};

#[test]
fn accepted_xt_is_not_committed_before_builder_confirmation() {
    let mut xt = PendingXt::new("xt-1".to_string(), b"xt-1".to_vec(), 10);
    xt.record_decision(true, 11);
    assert_eq!(determine_xt_status(&xt), XtStatus::Voted);
}

#[test]
fn accepted_xt_is_committed_after_builder_confirmation() {
    let mut xt = PendingXt::new("xt-2".to_string(), b"xt-2".to_vec(), 10);
    xt.record_decision(true, 11);
    xt.confirmed_at = Some(12);
    assert_eq!(determine_xt_status(&xt), XtStatus::Committed);
}

#[test]
fn status_follows_lifecycle() {
    let mut xt = PendingXt::new("xt-3".to_string(), b"xt-3".to_vec(), 0);
    assert_eq!(determine_xt_status(&xt), XtStatus::Pending);
    xt.locked_chains.push(ethera_sidecar::types::ChainId(1));
    assert_eq!(determine_xt_status(&xt), XtStatus::Simulating);
    xt.simulated_at = Some(5);
    assert_eq!(determine_xt_status(&xt), XtStatus::Simulated);
    xt.vote_sent = true;
    assert_eq!(determine_xt_status(&xt), XtStatus::Voted);
    xt.record_decision(false, 6);
    assert_eq!(determine_xt_status(&xt), XtStatus::Aborted);
}
