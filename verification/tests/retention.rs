use ethera_sidecar::coordinator::{
    BufferedMailbox, DefaultCoordinator, FingerprintEntry, SubmissionWaiters, VerificationConfig,
};
use ethera_sidecar::types::ChainId;
use ethera_sidecar::xt::PendingXt;

const NOW: u64 = 10_000_000;
const MAX_AGE: u64 = 300_000;

fn coordinator() -> DefaultCoordinator {
    DefaultCoordinator::new(ChainId(77777), 1000, VerificationConfig::default())
}

fn decided_xt(id: &str, decided_at: u64, confirmed_at: Option<u64>) -> PendingXt {
    let mut xt = PendingXt::new(id.to_string(), id.as_bytes().to_vec(), 0);
    xt.record_decision(true, decided_at);
    xt.confirmed_at = confirmed_at;
    xt
}

#[test]
fn coordinator_cleanup_removes_old_decided_xts() {
    let mut coordinator = coordinator();
    coordinator.state.pending.push(decided_xt("xt-77777-1", NOW - 400_000, None));
    coordinator.cleanup(MAX_AGE, NOW, &[]);
    assert!(coordinator.state.pending.is_empty());
}

#[test]
fn lifecycle_cleanup_removes_old_decided_xts() {
    let mut coordinator = coordinator();
    coordinator.state.pending.push(decided_xt("xt-77777-1", NOW - 400_000, None));
    coordinator.cleanup(MAX_AGE, NOW, &[]);
    assert!(coordinator.state.pending.is_empty());
}

#[test]
fn cleanup_removes_old_confirmed_xts() {
    let mut coordinator = coordinator();
    // confirmed_at is the age reference when set; simulate old confirmation.
    coordinator.state.pending.push(decided_xt("xt-77777-2", NOW, Some(NOW - 400_000)));
    coordinator.cleanup(MAX_AGE, NOW, &[]);
    assert!(coordinator.state.pending.is_empty());
}

#[test]
fn cleanup_retains_recently_confirmed_xts() {
    let mut coordinator = coordinator();
    // decided_at is old but confirmed_at is recent - should be retained.
    coordinator.state.pending.push(decided_xt("xt-77777-3", NOW - 400_000, Some(NOW)));
    coordinator.cleanup(MAX_AGE, NOW, &[]);
    assert_eq!(coordinator.state.pending.len(), 1);
}

#[test]
fn cleanup_keeps_undecided_and_prunes_related_tables() {
    let mut coordinator = coordinator();
    coordinator.state.pending.push(PendingXt::new("keep".to_string(), b"keep".to_vec(), 0));
    coordinator.state.pending.push(decided_xt("old", NOW - MAX_AGE - 1, None));
    coordinator.state.pending.push(decided_xt("edge", NOW - MAX_AGE, None));
    coordinator.state.submitted_fingerprints.push(FingerprintEntry { fingerprint: "f-old".to_string(), instance_id: "old".to_string() });
    coordinator.state.submitted_fingerprints.push(FingerprintEntry { fingerprint: "f-keep".to_string(), instance_id: "keep".to_string() });
    coordinator.state.mailbox_buffer.push(BufferedMailbox { instance_id: b"orphan".to_vec(), messages: Vec::new() });
    coordinator.state.mailbox_buffer.push(BufferedMailbox { instance_id: b"keep".to_vec(), messages: Vec::new() });
    coordinator.state.pending_submissions.push(SubmissionWaiters { fingerprint: "w1".to_string(), waiters: vec![1, 2] });
    coordinator.state.pending_submissions.push(SubmissionWaiters { fingerprint: "w2".to_string(), waiters: vec![3] });
    coordinator.cleanup(MAX_AGE, NOW, &[2, 3]);
    let ids: Vec<&str> = coordinator.state.pending.iter().map(|x| x.id.as_str()).collect();
    assert_eq!(ids, vec!["keep", "edge"]);
    assert_eq!(coordinator.state.submitted_fingerprints.len(), 1);
    assert_eq!(coordinator.state.submitted_fingerprints[0].instance_id, "keep");
    assert_eq!(coordinator.state.mailbox_buffer.len(), 1);
    assert_eq!(coordinator.state.mailbox_buffer[0].instance_id, b"keep".to_vec());
    assert_eq!(coordinator.state.pending_submissions.len(), 1);
    assert_eq!(coordinator.state.pending_submissions[0].fingerprint, "w1");
    assert_eq!(coordinator.state.pending_submissions[0].waiters, vec![1]);
}

#[test]
fn decision_time_after_now_counts_as_fresh() {
    let mut coordinator = coordinator();
    coordinator.state.pending.push(decided_xt("future", NOW + 5, None));
    coordinator.cleanup(0, NOW, &[]);
    assert_eq!(coordinator.state.pending.len(), 1);
}

#[test]
fn removing_an_xt_drops_its_fingerprints() {
    let mut coordinator = coordinator();
    coordinator.state.pending.push(PendingXt::new("a".to_string(), b"a".to_vec(), 0));
    coordinator.state.submitted_fingerprints.push(FingerprintEntry { fingerprint: "fa".to_string(), instance_id: "a".to_string() });
    coordinator.state.submitted_fingerprints.push(FingerprintEntry { fingerprint: "fb".to_string(), instance_id: "b".to_string() });
    assert!(coordinator.remove_pending_xt("a", &[]));
    assert!(coordinator.state.pending.is_empty());
    assert_eq!(coordinator.state.submitted_fingerprints.len(), 1);
    assert_eq!(coordinator.state.submitted_fingerprints[0].fingerprint, "fb");
    assert!(!coordinator.remove_pending_xt("a", &[]));
    assert_eq!(coordinator.state.submitted_fingerprints.len(), 1);
}
