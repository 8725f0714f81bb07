use ethera_sidecar::admission::{StandaloneSubmission, XtSubmission};
use ethera_sidecar::error::CoordinatorError;
use ethera_sidecar::coordinator::{DefaultCoordinator, SubmissionWaiters, VerificationConfig};
use ethera_sidecar::overrides::StateOverride;
use ethera_sidecar::simulation::{
    dependency_deadline, dependency_wait_check, process_xt_start, process_xt_step, simulation_next,
    DependencyWait, SimulationNext, SimulationResult, SimulationStart, XtRun, XtRunAction, XtRunEvent,
};
use ethera_sidecar::types::{ChainId, CrossRollupDependency, PeriodId, SuperblockNumber};
use ethera_sidecar::xt::{ChainTxs, PendingXt};

fn coordinator() -> DefaultCoordinator {
    DefaultCoordinator::new(ChainId(77777), 1000, VerificationConfig::default())
}

fn result(success: bool, deps: Vec<CrossRollupDependency>) -> SimulationResult {
    SimulationResult {
        success,
        error: if success { None } else { Some("execution reverted".to_string()) },
        state_overrides: None,
        dependencies: deps,
        outbound_messages: Vec::new(),
    }
}

/// Runs the local processing loop with a simulator that answers `outcome`
/// for every transaction and a mailbox that never fulfils a dependency, then
/// records the local vote.
fn process_xt(c: &mut DefaultCoordinator, id: &str, outcome: &SimulationResult) {
    let vote = match c.begin_simulation(id) {
        SimulationStart::Unknown => return,
        SimulationStart::NoLocalTransactions => false,
        SimulationStart::Ready { transactions, overrides, block_number, flashblock_index, .. } => {
            let mut base = overrides;
            let (mut run, mut action) = process_xt_start(transactions.len());
            loop {
                let event = match action {
                    XtRunAction::Vote(v) => break v,
                    XtRunAction::Simulate { .. } => {
                        base = c.record_simulation_state(id, outcome, &base, block_number, flashblock_index);
                        XtRunEvent::Simulated(simulation_next(outcome))
                    }
                    XtRunAction::Dispatch => {
                        c.dispatch_outbound_mailbox(id, &outcome.outbound_messages);
                        XtRunEvent::Dispatched(true)
                    }
                    XtRunAction::WaitForDependencies => XtRunEvent::DependenciesWaited(false),
                };
                (run, action) = process_xt_step(run, event);
            }
        }
    };
    c.send_vote(id, vote, true, 1);
}

fn local_xt(id: &str, chains: &[u64]) -> PendingXt {
    let mut xt = PendingXt::new(id.to_string(), id.as_bytes().to_vec(), 0);
    for c in chains {
        xt.raw_txs.push(ChainTxs { chain_id: ChainId(*c), txs: vec![vec![0xab, 0xcd]] });
    }
    xt
}

#[test]
fn process_xt_votes_true_on_success_with_no_deps() {
    let mut c = coordinator();
    c.state.pending.push(local_xt("xt-77777-10", &[77777]));
    process_xt(&mut c, "xt-77777-10", &result(true, Vec::new()));
    assert_eq!(c.state.pending[0].local_vote, Some(true));
}

#[test]
fn process_xt_votes_false_on_simulation_error() {
    let mut c = coordinator();
    c.state.pending.push(local_xt("xt-77777-11", &[77777]));
    process_xt(&mut c, "xt-77777-11", &result(false, Vec::new()));
    assert_eq!(c.state.pending[0].local_vote, Some(false));
}

#[test]
fn process_xt_votes_false_when_no_local_txs() {
    let mut c = coordinator();
    c.state.pending.push(local_xt("xt-88888-12", &[88888]));
    process_xt(&mut c, "xt-88888-12", &result(true, Vec::new()));
    assert_eq!(c.state.pending[0].local_vote, Some(false));
}

#[test]
fn simulation_step_follows_result() {
    let dep = CrossRollupDependency {
        source_chain_id: ChainId(1),
        dest_chain_id: ChainId(2),
        sender: [0; 20],
        receiver: [0; 20],
        label: b"L".to_vec(),
        data: None,
        session_id: None,
    };
    assert_eq!(simulation_next(&result(true, Vec::new())), SimulationNext::Continue);
    assert_eq!(simulation_next(&result(false, Vec::new())), SimulationNext::VoteAbort);
    assert_eq!(simulation_next(&result(false, vec![dep])), SimulationNext::WaitForDependencies);
}

#[test]
fn begin_simulation_locks_local_chain() {
    let mut c = coordinator();
    c.state.pending.push(local_xt("x", &[77777, 88888]));
    match c.begin_simulation("x") {
        SimulationStart::Ready { transactions, .. } => assert_eq!(transactions, vec![vec![0xab, 0xcd]]),
        other => panic!("unexpected {other:?}"),
    }
    assert!(c.state.pending[0].locked_chains.contains(&ChainId(77777)));
    assert!(matches!(c.begin_simulation("missing"), SimulationStart::Unknown));
    let _unused = StateOverride { accounts: Vec::new() };
}

#[test]
fn decided_committed_xt_keeps_reservation_at_rollover() {
    let mut c = coordinator();
    assert_eq!(c.nonce_manager.reserve("xt-77777-decided", 1, 0), 0);
    let mut xt = local_xt("xt-77777-decided", &[77777]);
    xt.period_id = PeriodId(1);
    xt.record_decision(true, 1);
    c.state.pending.push(xt);
    let out = c.handle_start_period(PeriodId(2), SuperblockNumber(10), 2);
    for id in &out.builder_abort_ids {
        c.nonce_manager.release_aborted(id);
    }
    assert!(out.builder_abort_ids.is_empty());
    assert_eq!(c.nonce_manager.reserve("xt-77777-next", 1, 0), 1);
}

#[test]
fn rollover_advances_past_live_reservation_when_canonical_caught_up() {
    let mut c = coordinator();
    assert_eq!(c.nonce_manager.reserve("xt-77777-decided", 1, 0), 0);
    let mut xt = local_xt("xt-77777-decided", &[77777]);
    xt.period_id = PeriodId(1);
    xt.record_decision(true, 1);
    c.state.pending.push(xt);
    let out = c.handle_start_period(PeriodId(2), SuperblockNumber(10), 2);
    for id in &out.builder_abort_ids {
        c.nonce_manager.release_aborted(id);
    }
    assert_eq!(c.nonce_manager.reserve("xt-77777-next", 1, 5), 5);
}

#[test]
fn stale_undecided_xt_releases_its_nonces_for_reuse() {
    let mut c = coordinator();
    assert_eq!(c.nonce_manager.reserve("stale", 1, 0), 0);
    assert_eq!(c.nonce_manager.reserve("other", 1, 0), 1);
    let mut xt = local_xt("stale", &[77777]);
    xt.period_id = PeriodId(1);
    c.state.pending.push(xt);
    let out = c.handle_start_period(PeriodId(2), SuperblockNumber(10), 2);
    assert_eq!(out.builder_abort_ids, vec!["stale".to_string()]);
    for id in &out.builder_abort_ids {
        c.nonce_manager.release_aborted(id);
    }
    assert_eq!(c.nonce_manager.reserve("next", 1, 0), 0);
}

#[test]
fn submit_xt_publisher_joins_duplicate_waiters() {
    let mut c = coordinator();
    let txs = || {
        vec![
            ChainTxs { chain_id: ChainId(77777), txs: vec![vec![0x01, 0x02, 0x03]] },
            ChainTxs { chain_id: ChainId(88888), txs: vec![vec![0x04, 0x05, 0x06]] },
        ]
    };
    let first = c.submit_xt_publisher(&txs(), 1);
    let second = c.submit_xt_publisher(&txs(), 2);
    assert!(first.should_send);
    assert!(!second.should_send);
    assert_eq!(first.fingerprint, second.fingerprint);
    let tickets = c.state.resolve_pending_submission(&first.fingerprint);
    assert_eq!(tickets, vec![1, 2]);
    assert!(c.state.resolve_pending_submission(&first.fingerprint).is_empty());
}

#[test]
fn rollback_resolves_pending_submission_waiters() {
    let mut c = coordinator();
    c.state.pending_submissions.push(SubmissionWaiters { fingerprint: "fp-1".to_string(), waiters: vec![7] });
    let out = c.handle_rollback(PeriodId(1), 5, 0);
    assert_eq!(out.resolved_waiters, vec![7]);
    assert!(c.state.pending_submissions.is_empty());
}

#[test]
fn submit_xt_validates_then_routes() {
    let mut c = coordinator();
    assert!(matches!(c.submit_xt(Vec::new(), false, 1, false, 0), Err(CoordinatorError::NoTransactions)));
    let one = vec![ChainTxs { chain_id: ChainId(77777), txs: vec![vec![1]] }];
    match c.submit_xt(one, false, 1, false, 0) {
        Err(CoordinatorError::Other(m)) => assert_eq!(m, "cross-chain transaction must span at least 2 chains"),
        other => panic!("unexpected {other:?}"),
    }
    let two = || vec![
        ChainTxs { chain_id: ChainId(77777), txs: vec![vec![1]] },
        ChainTxs { chain_id: ChainId(88888), txs: vec![vec![2]] },
    ];
    match c.submit_xt(two(), false, 1, true, 5) {
        Ok(XtSubmission::Standalone(StandaloneSubmission::Registered { instance_id, forward, origin_seq, local_submission })) => {
            assert_eq!(instance_id, "xt-77777-1");
            assert_eq!(origin_seq, ethera_sidecar::types::SequenceNumber(1));
            assert_eq!(forward.unwrap().len(), 2);
            assert_eq!(local_submission.unwrap().transactions, vec![vec![1u8]]);
        }
        other => panic!("unexpected {other:?}"),
    }
    // the same request again is a duplicate of the pending XT
    match c.submit_xt(two(), false, 2, true, 6) {
        Ok(XtSubmission::Standalone(StandaloneSubmission::Duplicate { instance_id })) => assert_eq!(instance_id, "xt-77777-1"),
        other => panic!("unexpected {other:?}"),
    }
    match c.submit_xt(two(), true, 3, false, 7) {
        Ok(XtSubmission::Publisher(p)) => assert!(p.should_send),
        other => panic!("unexpected {other:?}"),
    }
}

#[test]
fn processing_loop_simulates_each_transaction_then_commits() {
    let (run, action) = process_xt_start(2);
    assert_eq!(action, XtRunAction::Simulate { tx_index: 0 });
    let (run, action) = process_xt_step(run, XtRunEvent::Simulated(SimulationNext::Continue));
    assert_eq!(action, XtRunAction::Dispatch);
    let (run, action) = process_xt_step(run, XtRunEvent::Dispatched(true));
    assert_eq!(action, XtRunAction::Simulate { tx_index: 1 });
    let (run, action) = process_xt_step(run, XtRunEvent::Simulated(SimulationNext::WaitForDependencies));
    assert_eq!(action, XtRunAction::WaitForDependencies);
    let (run, action) = process_xt_step(run, XtRunEvent::DependenciesWaited(true));
    assert_eq!(action, XtRunAction::Simulate { tx_index: 1 });
    let (run, action) = process_xt_step(run, XtRunEvent::Simulated(SimulationNext::Continue));
    let (run, action2) = process_xt_step(run, XtRunEvent::Dispatched(true));
    assert_eq!(action, XtRunAction::Dispatch);
    assert_eq!(action2, XtRunAction::Vote(true));
    assert_eq!(run, XtRun { tx_index: 2, tx_count: 2 });
}

#[test]
fn processing_loop_aborts_on_failures_and_timeouts() {
    assert_eq!(process_xt_start(0).1, XtRunAction::Vote(false));
    let run = XtRun { tx_index: 0, tx_count: 1 };
    assert_eq!(process_xt_step(run, XtRunEvent::SimulationError).1, XtRunAction::Vote(false));
    assert_eq!(process_xt_step(run, XtRunEvent::Simulated(SimulationNext::VoteAbort)).1, XtRunAction::Vote(false));
    assert_eq!(process_xt_step(run, XtRunEvent::Dispatched(false)).1, XtRunAction::Vote(false));
    assert_eq!(process_xt_step(run, XtRunEvent::DependenciesWaited(false)).1, XtRunAction::Vote(false));
}

#[test]
fn dependency_wait_ends_on_fulfilment_or_deadline() {
    let deadline = dependency_deadline(100, 1000);
    assert_eq!(deadline, 1100);
    assert_eq!(dependency_deadline(u64::MAX - 1, 1000), u64::MAX);
    assert_eq!(dependency_wait_check(1, 2000, deadline), DependencyWait::Fulfilled);
    assert_eq!(dependency_wait_check(0, 500, deadline), DependencyWait::Sleep);
    assert_eq!(dependency_wait_check(0, 1100, deadline), DependencyWait::TimedOut);
}

#[test]
fn outbound_messages_are_sent_once() {
    let mut c = coordinator();
    c.state.pending.push(local_xt("xt-77777-20", &[77777]));
    let msg = || ethera_sidecar::types::CrossRollupMessage {
        source_chain_id: ChainId(77777),
        dest_chain_id: ChainId(88888),
        sender: [1; 20],
        receiver: [2; 20],
        label: "SEND".to_string(),
        data: vec![7],
        session_id: None,
    };
    let first = c.dispatch_outbound_mailbox("xt-77777-20", &vec![msg(), msg()]);
    assert_eq!(first.len(), 1);
    assert_eq!(first[0].label, "SEND");
    let again = c.dispatch_outbound_mailbox("xt-77777-20", &vec![msg()]);
    assert!(again.is_empty());
}

#[test]
fn full_origin_counter_refuses_only_new_registrations() {
    let mut c = coordinator();
    c.state.origin_seq = ethera_sidecar::types::SequenceNumber(u64::MAX - 1);
    assert!(matches!(c.submit_xt(Vec::new(), false, 1, false, 0), Err(CoordinatorError::NoTransactions)));
    let two = |b: u8| vec![
        ChainTxs { chain_id: ChainId(77777), txs: vec![vec![b]] },
        ChainTxs { chain_id: ChainId(88888), txs: vec![vec![b]] },
    ];
    let id = match c.submit_xt_standalone(two(1), false, 0) {
        Ok(StandaloneSubmission::Registered { instance_id, .. }) => instance_id,
        other => panic!("unexpected {other:?}"),
    };
    assert_eq!(id, format!("xt-77777-{}", u64::MAX));
    // The counter is now full: a resubmission is still answered ...
    match c.submit_xt_standalone(two(1), false, 0) {
        Ok(StandaloneSubmission::Duplicate { instance_id }) => assert_eq!(instance_id, id),
        other => panic!("unexpected {other:?}"),
    }
    assert!(matches!(c.submit_xt(Vec::new(), false, 1, false, 0), Err(CoordinatorError::NoTransactions)));
    // ... but a new XT gets no number.
    match c.submit_xt_standalone(two(2), false, 0) {
        Err(CoordinatorError::Other(m)) => assert_eq!(m, "origin sequence exhausted"),
        other => panic!("unexpected {other:?}"),
    }
    assert_eq!(c.state.origin_seq.0, u64::MAX);
    assert_eq!(c.state.pending.len(), 1);
}
