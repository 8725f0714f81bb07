use ethera_sidecar::admission::{StartInstance, StartInstanceOutcome};
use ethera_sidecar::coordinator::{DefaultCoordinator, VerificationConfig};
use ethera_sidecar::submission::{TransactionRequest, XtRequest};
use ethera_sidecar::types::{ChainId, PeriodId};

fn coordinator() -> DefaultCoordinator {
    DefaultCoordinator::new(ChainId(77777), 1000, VerificationConfig::default())
}

fn start_instance(sequence_number: u64) -> StartInstance {
    let mut instance_id = [0_u8; 32];
    instance_id[24..].copy_from_slice(&sequence_number.to_be_bytes());
    StartInstance {
        instance_id: instance_id.to_vec(),
        period_id: 1,
        sequence_number,
        xt_request: Some(XtRequest {
            transaction_requests: vec![TransactionRequest {
                chain_id: 77777,
                transaction: vec![vec![sequence_number as u8]],
            }],
        }),
    }
}

/// The call succeeded: the instance was registered or refused, not failed.
fn succeeded(out: &StartInstanceOutcome) -> bool {
    !matches!(out, StartInstanceOutcome::Failed { .. })
}

/// The instance was registered.
fn registered(out: &StartInstanceOutcome) -> bool {
    matches!(out, StartInstanceOutcome::Registered { .. })
}

fn start_instance_for_period(period_id: u64, sequence_number: u64) -> StartInstance {
    StartInstance { period_id, ..start_instance(sequence_number) }
}

#[test]
fn handle_start_instance_allows_multiple_local_xts() {
    let mut coordinator = coordinator();
    coordinator.state.publisher_period.start(PeriodId(1));
    assert!(registered(&coordinator.handle_start_instance(&start_instance(1), 0)));
    assert!(registered(&coordinator.handle_start_instance(&start_instance(2), 0)));
    assert_eq!(coordinator.state.pending.len(), 2);
}

#[test]
fn handle_start_instance_rejects_non_advancing_sequence() {
    let mut coordinator = coordinator();
    coordinator.state.publisher_period.start(PeriodId(1));
    assert!(registered(&coordinator.handle_start_instance(&start_instance(2), 0)));
    // A fresh instance reusing sequence 2 is rejected by the watermark.
    let mut replay = start_instance(2);
    replay.instance_id = [0xff; 32].to_vec();
    let out = coordinator.handle_start_instance(&replay, 0);
    assert!(matches!(out, StartInstanceOutcome::Rejected { .. }));
    assert_eq!(coordinator.state.pending.len(), 1);
}

#[test]
fn handle_start_instance_rejects_malformed_instance_id() {
    let mut coordinator = coordinator();
    coordinator.state.publisher_period.start(PeriodId(1));
    let mut malformed = start_instance(1);
    malformed.instance_id = b"not-32-bytes".to_vec();
    let out = coordinator.handle_start_instance(&malformed, 0);
    assert!(succeeded(&out) && !registered(&out));
    assert!(coordinator.state.pending.is_empty());
}

#[test]
fn handle_start_instance_rejects_period_before_start_period() {
    let mut coordinator = coordinator();
    let out = coordinator.handle_start_instance(&start_instance(1), 0);
    assert!(succeeded(&out) && !registered(&out));
    assert!(coordinator.state.pending.is_empty());
}

#[test]
fn handle_start_instance_rejects_stale_and_future_periods() {
    let mut coordinator = coordinator();
    coordinator.state.publisher_period.start(PeriodId(10));
    let out = coordinator.handle_start_instance(&start_instance_for_period(9, 1), 0);
    assert!(succeeded(&out) && !registered(&out));
    let out = coordinator.handle_start_instance(&start_instance_for_period(11, 2), 0);
    assert!(succeeded(&out) && !registered(&out));
    assert!(coordinator.state.pending.is_empty());
}

#[test]
fn handle_start_instance_resets_sequence_on_new_period() {
    let mut coordinator = coordinator();
    coordinator.state.publisher_period.start(PeriodId(1));
    assert!(registered(&coordinator.handle_start_instance(&start_instance(3), 0)));
    coordinator.state.publisher_period.start(PeriodId(2));
    assert!(registered(&coordinator.handle_start_instance(&start_instance_for_period(2, 1), 0)));
    assert_eq!(coordinator.state.pending.len(), 2);
}

#[test]
fn registered_instance_is_named_by_hex_id_and_submitted_locally() {
    let mut coordinator = coordinator();
    coordinator.state.publisher_period.start(PeriodId(1));
    match coordinator.handle_start_instance(&start_instance(5), 0) {
        StartInstanceOutcome::Registered { instance_id, local_submission, .. } => {
            assert_eq!(instance_id, format!("{}{:016x}", "0".repeat(48), 5));
            let sub = local_submission.unwrap();
            assert_eq!(sub.sequence_number, 5);
            assert_eq!(sub.period_id, 1);
            assert_eq!(sub.transactions, vec![vec![5u8]]);
        }
        other => panic!("unexpected outcome {other:?}"),
    }
    // the same instance again is refused
    assert!(matches!(
        coordinator.handle_start_instance(&start_instance(5), 0),
        StartInstanceOutcome::Failed { .. } | StartInstanceOutcome::Rejected { .. }
    ));
}
