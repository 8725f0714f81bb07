use ethera_sidecar::coordinator::{DefaultCoordinator, VerificationConfig};
use ethera_sidecar::types::{ChainId, MailboxMessage, PeriodId, SequenceNumber, SuperblockNumber};
use ethera_sidecar::xt::{ChainTxs, PeerVote, PendingXt};

fn coordinator(chain: u64) -> DefaultCoordinator {
    DefaultCoordinator::new(ChainId(chain), 1000, VerificationConfig::default())
}

fn xt_with_chains(id: &str, chains: &[u64]) -> PendingXt {
    let mut xt = PendingXt::new(id.to_string(), id.as_bytes().to_vec(), 0);
    for (i, c) in chains.iter().enumerate() {
        xt.raw_txs.push(ChainTxs { chain_id: ChainId(*c), txs: vec![vec![i as u8 + 1]] });
    }
    xt
}

fn find<'a>(c: &'a DefaultCoordinator, id: &str) -> &'a PendingXt {
    c.state.pending.iter().find(|x| x.id == id).unwrap()
}

#[test]
fn has_active_instance_returns_false_when_decided() {
    let mut c = coordinator(77777);
    let mut xt = xt_with_chains("xt-77777-1", &[77777]);
    xt.record_decision(true, 5);
    c.state.pending.push(xt);
    assert!(!c.state.has_active_instance(ChainId(77777)));
    c.state.pending.push(xt_with_chains("xt-77777-2", &[77777]));
    assert!(c.state.has_active_instance(ChainId(77777)));
    assert!(!c.state.has_active_instance(ChainId(1)));
}

#[test]
fn local_builder_submission_prefers_publisher_sequence() {
    let c = coordinator(77777);
    let mut xt = PendingXt::new("xt-77777-2".to_string(), b"xt-77777-2".to_vec(), 0);
    xt.period_id = PeriodId(11);
    xt.sequence_num = SequenceNumber(7);
    xt.origin_seq = SequenceNumber(3);
    xt.raw_txs.push(ChainTxs { chain_id: ChainId(77777), txs: vec![vec![1], vec![2]] });
    let submission = c.local_builder_submission(&xt).unwrap();
    assert_eq!(submission.period_id, 11);
    assert_eq!(submission.sequence_number, 7);
    assert_eq!(submission.transactions.len(), 2);
}

#[test]
fn local_builder_submission_falls_back_to_origin_sequence() {
    let c = coordinator(77777);
    let mut xt = xt_with_chains("xt-1", &[77777]);
    xt.origin_seq = SequenceNumber(3);
    assert_eq!(c.local_builder_submission(&xt).unwrap().sequence_number, 3);
    let other = xt_with_chains("xt-2", &[5]);
    assert!(c.local_builder_submission(&other).is_none());
}

#[test]
fn confirm_included_xts_keeps_pending_for_status_polling() {
    let mut c = coordinator(77777);
    c.state.pending.push(xt_with_chains("xt-77777-1", &[77777]));
    c.confirm_included_xts(&vec!["xt-77777-1".to_string(), "unknown".to_string()], 42).unwrap();
    let xt = find(&c, "xt-77777-1");
    assert_eq!(xt.confirmed_at, Some(42));
    assert_eq!(c.state.pending.len(), 1);
}

#[test]
fn send_vote_does_not_overwrite_existing_local_vote() {
    let mut c = coordinator(77777);
    c.state.pending.push(PendingXt::new("xt-77777-1".to_string(), b"xt-77777-1".to_vec(), 0));
    c.send_vote("xt-77777-1", true, true, 1);
    let second = c.send_vote("xt-77777-1", false, true, 2);
    assert!(!second.recorded);
    assert_eq!(find(&c, "xt-77777-1").local_vote, Some(true));
}

#[test]
fn send_vote_decides_when_peer_vote_already_present() {
    let mut c = coordinator(77777);
    let mut xt = xt_with_chains("xt-77777-2", &[77777, 88888]);
    xt.peer_votes.push(PeerVote { chain_id: ChainId(88888), vote: true });
    c.state.pending.push(xt);
    let out = c.send_vote("xt-77777-2", true, true, 1);
    assert_eq!(out.decision, Some((true, 2, 2)));
    let xt = find(&c, "xt-77777-2");
    assert_eq!(xt.local_vote, Some(true));
    assert_eq!(xt.decision, Some(true));
}

#[test]
fn send_vote_applies_existing_abort_peer_vote() {
    let mut c = coordinator(77777);
    let mut xt = xt_with_chains("xt-77777-3", &[77777, 88888]);
    xt.peer_votes.push(PeerVote { chain_id: ChainId(88888), vote: false });
    c.state.pending.push(xt);
    c.send_vote("xt-77777-3", true, true, 1);
    let xt = find(&c, "xt-77777-3");
    assert_eq!(xt.local_vote, Some(true));
    assert_eq!(xt.decision, Some(false));
}

#[test]
fn mailbox_message_attaches_to_pending_xt_by_raw_instance_id() {
    let mut c = coordinator(88888);
    c.state.pending.push(PendingXt::new("xt-77777-1".to_string(), b"xt-77777-1".to_vec(), 0));
    let msg = MailboxMessage {
        instance_id: b"xt-77777-1".to_vec(),
        source_chain: 77777,
        destination_chain: 88888,
        source: Vec::new(),
        receiver: Vec::new(),
        label: "SEND".to_string(),
        data: Vec::new(),
        session_id: 0,
    };
    assert!(c.handle_mailbox_message(msg));
    let updated = find(&c, "xt-77777-1");
    assert_eq!(updated.pending_mailbox.len(), 1);
    assert_eq!(updated.pending_mailbox[0].label, "SEND");
}

#[test]
fn orphan_mailbox_message_is_buffered() {
    let mut c = coordinator(88888);
    let msg = MailboxMessage {
        instance_id: b"later".to_vec(),
        source_chain: 1,
        destination_chain: 88888,
        source: Vec::new(),
        receiver: Vec::new(),
        label: "X".to_string(),
        data: Vec::new(),
        session_id: 0,
    };
    assert!(!c.handle_mailbox_message(msg));
    assert_eq!(c.state.mailbox_buffer.len(), 1);
    assert_eq!(c.state.mailbox_buffer[0].instance_id, b"later".to_vec());
}

#[test]
fn handle_rollback_updates_period_and_superblock() {
    let mut c = coordinator(77777);
    c.state.current_period_id = PeriodId(10);
    c.state.current_superblock_num = SuperblockNumber(100);
    c.state.publisher_period.start(PeriodId(10));
    c.state.pending.push(xt_with_chains("a", &[77777]));
    let out = c.handle_rollback(PeriodId(8), 50, 7);
    assert_eq!(out.aborted, 1);
    assert_eq!(c.state.current_period_id, PeriodId(8));
    assert_eq!(c.state.current_superblock_num, SuperblockNumber(51));
    assert_eq!(c.state.publisher_period.current(), None);
    assert_eq!(find(&c, "a").decision, Some(false));
}

#[test]
fn start_period_undecided_stale_xt_is_aborted_on_new_period() {
    let mut c = coordinator(77777);
    c.handle_start_period(PeriodId(1), SuperblockNumber(1), 0);
    let mut xt = xt_with_chains("stale", &[77777]);
    xt.period_id = PeriodId(1);
    c.state.pending.push(xt);
    let out = c.handle_start_period(PeriodId(2), SuperblockNumber(2), 9);
    assert_eq!(out.aborted_instance_ids, vec![b"stale".to_vec()]);
    assert_eq!(out.builder_abort_ids, vec!["stale".to_string()]);
    assert_eq!(find(&c, "stale").decision, Some(false));
    assert_eq!(c.state.current_period_id, PeriodId(2));
}

#[test]
fn start_period_confirmed_xt_is_not_aborted_on_new_period() {
    let mut c = coordinator(77777);
    c.handle_start_period(PeriodId(1), SuperblockNumber(1), 0);
    let mut xt = xt_with_chains("done", &[77777]);
    xt.period_id = PeriodId(1);
    xt.record_decision(true, 3);
    xt.confirmed_at = Some(4);
    c.state.pending.push(xt);
    let out = c.handle_start_period(PeriodId(2), SuperblockNumber(2), 9);
    assert!(out.aborted_instance_ids.is_empty());
    assert_eq!(find(&c, "done").decision, Some(true));
}
