use alloy::consensus::{Transaction, TxEnvelope};
use alloy::network::eip2718::Decodable2718;
use alloy::primitives::TxKind;
use ethera_sidecar::abi::encode_put_inbox_calldata;
use ethera_sidecar::admission::decode_sender_nonce;
use ethera_sidecar::coordinator::{DefaultCoordinator, VerificationConfig, XtBuilderCommand};
use ethera_sidecar::error::CoordinatorError;
use ethera_sidecar::overrides::{AccountOverride, StateOverride};
use ethera_sidecar::poll::DeliverableXt;
use ethera_sidecar::put_inbox::{BuilderAction, PutInboxTxBuilder, PUT_INBOX_GAS_LIMIT};
use ethera_sidecar::types::{ChainId, CrossRollupDependency};

const KEY: &str = "ac0974bec39a17e36ba4a6b4d238ff944bacb478cbed5efcae784d7bf4f2ff80";
const KEY_ADDRESS: [u8; 20] = [
    0xf3, 0x9f, 0xd6, 0xe5, 0x1a, 0xad, 0x88, 0xf6, 0xf4, 0xce, 0x6a, 0xb8, 0x82, 0x72, 0x79, 0xcf, 0xff,
    0xb9, 0x22, 0x66,
];
const MAILBOX: &str = "0x0909090909090909090909090909090909090909";

fn test_dependency() -> CrossRollupDependency {
    CrossRollupDependency {
        source_chain_id: ChainId(177778),
        dest_chain_id: ChainId(188889),
        sender: [0; 20],
        receiver: [0; 20],
        label: b"dep".to_vec(),
        data: None,
        session_id: None,
    }
}

fn builder() -> PutInboxTxBuilder {
    PutInboxTxBuilder::new(ChainId(77777), MAILBOX, KEY).unwrap()
}

fn coordinator_with_builder() -> DefaultCoordinator {
    let mut c = DefaultCoordinator::new(ChainId(77777), 1000, VerificationConfig::default());
    c.set_put_inbox_builder(builder());
    c
}

fn nonces(transactions: &[Vec<u8>]) -> Vec<u64> {
    transactions
        .iter()
        .map(|t| {
            let (from, nonce) = decode_sender_nonce(t).expect("signed transaction");
            assert_eq!(from, KEY_ADDRESS);
            nonce
        })
        .collect()
}

fn deliverable(id: &str, deps: Vec<CrossRollupDependency>) -> DeliverableXt {
    DeliverableXt { id: id.to_string(), put_inbox_txs: Vec::new(), raw_txs: vec![vec![1]], deps }
}

fn signer_nonce_override(nonce: u64) -> StateOverride {
    StateOverride {
        accounts: vec![AccountOverride {
            address: KEY_ADDRESS,
            balance: None,
            nonce: Some(nonce),
            code: None,
            state: None,
            state_diff: None,
        }],
    }
}

#[test]
fn build_put_inbox_transactions_uses_canonical_nonce_source() {
    let mut coordinator = coordinator_with_builder();
    let dependencies = vec![test_dependency(), test_dependency()];

    let transactions = coordinator.build_put_inbox_transactions("xt-1", &dependencies, 7).unwrap();
    assert_eq!(transactions.len(), 2);
    assert_eq!(nonces(&transactions), vec![7, 8]);

    // Chain advances past the in-flight reservation: the next reserve starts
    // from the higher canonical value.
    let transactions = coordinator.build_put_inbox_transactions("xt-2", &vec![test_dependency()], 11).unwrap();
    assert_eq!(nonces(&transactions), vec![11]);
}

#[test]
fn put_inbox_nonce_stays_above_live_reservation_when_canonical_lags() {
    let mut coordinator = coordinator_with_builder();
    let transactions = coordinator
        .build_put_inbox_transactions("xt-1", &vec![test_dependency(), test_dependency()], 7)
        .unwrap();
    assert_eq!(nonces(&transactions), vec![7, 8]);

    // The chain has caught up to one of the in-flight transactions only; the
    // next reservation starts above the live range.
    let transactions = coordinator.build_put_inbox_transactions("xt-2", &vec![test_dependency()], 8).unwrap();
    assert_eq!(nonces(&transactions), vec![9]);
}

#[test]
fn aborted_put_inbox_reservation_is_reused_by_next_xt() {
    let mut coordinator = coordinator_with_builder();
    let transactions = coordinator.build_put_inbox_transactions("xt-1", &vec![test_dependency()], 7).unwrap();
    assert_eq!(nonces(&transactions), vec![7]);

    let action = coordinator
        .apply_builder_command(XtBuilderCommand::Abort { instance_id: "xt-1".to_string() }, false, 7)
        .unwrap();
    assert!(matches!(action, BuilderAction::Nothing));

    // Canonical is still 7 because the aborted transaction never landed; the
    // recycled nonce 7 goes to the next XT.
    let transactions = coordinator.build_put_inbox_transactions("xt-2", &vec![test_dependency()], 7).unwrap();
    assert_eq!(nonces(&transactions), vec![7]);
}

#[test]
fn builder_derives_signer_address_from_key() {
    assert_eq!(builder().signer_address(), KEY_ADDRESS);
    let prefixed = format!("0x{KEY}");
    let b = PutInboxTxBuilder::new(ChainId(77777), MAILBOX, &prefixed).unwrap();
    assert_eq!(b.signer_address(), KEY_ADDRESS);
}

#[test]
fn builder_rejects_invalid_mailbox_address() {
    match PutInboxTxBuilder::new(ChainId(77777), "not-an-address", KEY) {
        Err(CoordinatorError::Other(m)) => assert!(m.starts_with("invalid mailbox address: "), "{m}"),
        _ => panic!("expected invalid mailbox address"),
    }
}

#[test]
fn builder_rejects_invalid_coordinator_key() {
    for key in ["abcd", "zz", "0000000000000000000000000000000000000000000000000000000000000000"] {
        match PutInboxTxBuilder::new(ChainId(77777), MAILBOX, key) {
            Err(CoordinatorError::Other(m)) => assert!(m.starts_with("invalid coordinator key: "), "{m}"),
            _ => panic!("expected invalid coordinator key for {key}"),
        }
    }
}

#[test]
fn signed_put_inbox_transaction_carries_the_calldata() {
    let dep = CrossRollupDependency { data: Some(vec![4, 5]), ..test_dependency() };
    let raw = builder().build_put_inbox_tx_with_nonce(&dep, 42).unwrap();
    let envelope = TxEnvelope::decode_2718(&mut raw.as_slice()).unwrap();
    let tx = envelope.as_eip1559().expect("EIP-1559 transaction").tx();
    assert_eq!(tx.chain_id, 77777);
    assert_eq!(tx.nonce, 42);
    assert_eq!(tx.gas_limit, PUT_INBOX_GAS_LIMIT);
    assert_eq!(tx.max_fee_per_gas, 20_000_000_000);
    assert_eq!(tx.max_priority_fee_per_gas, 1_000_000_000);
    assert_eq!(tx.to, TxKind::Call([9u8; 20].into()));
    assert_eq!(envelope.value(), alloy::primitives::U256::ZERO);
    assert_eq!(tx.input.to_vec(), encode_put_inbox_calldata(&dep).unwrap());
    assert_eq!(decode_sender_nonce(&raw), Some((KEY_ADDRESS, 42)));
}

#[test]
fn no_dependencies_need_no_builder() {
    let mut coordinator = DefaultCoordinator::new(ChainId(77777), 1000, VerificationConfig::default());
    assert_eq!(coordinator.build_put_inbox_transactions("xt-1", &Vec::new(), 7).unwrap().len(), 0);
    match coordinator.build_put_inbox_transactions("xt-1", &vec![test_dependency()], 7) {
        Err(CoordinatorError::PutInboxNotConfigured) => {}
        _ => panic!("expected PutInboxNotConfigured"),
    }
}

#[test]
fn release_command_builds_put_inbox_transactions() {
    let mut coordinator = coordinator_with_builder();
    let command = XtBuilderCommand::Release { instance_id: "xt-1".to_string(), dependencies: vec![test_dependency()] };
    match coordinator.apply_builder_command(command, true, 3).unwrap() {
        BuilderAction::Release { instance_id, put_inbox_transactions } => {
            assert_eq!(instance_id, "xt-1");
            assert_eq!(nonces(&put_inbox_transactions), vec![3]);
        }
        _ => panic!("expected a release"),
    }
    let command = XtBuilderCommand::Release { instance_id: "xt-2".to_string(), dependencies: vec![test_dependency()] };
    assert!(matches!(coordinator.apply_builder_command(command, false, 3).unwrap(), BuilderAction::Nothing));
    let command = XtBuilderCommand::Abort { instance_id: "xt-1".to_string() };
    match coordinator.apply_builder_command(command, true, 3).unwrap() {
        BuilderAction::Abort { instance_id } => assert_eq!(instance_id, "xt-1"),
        _ => panic!("expected an abort"),
    }
}

#[test]
fn deliverables_get_put_inbox_transactions_from_override_nonce() {
    let mut coordinator = coordinator_with_builder();
    let deliverables = vec![
        deliverable("xt-a", vec![test_dependency(), test_dependency()]),
        deliverable("xt-b", Vec::new()),
        deliverable("xt-c", vec![test_dependency()]),
    ];
    let out = coordinator
        .build_deliverable_put_inbox(deliverables, &Some(signer_nonce_override(5)), None)
        .unwrap();
    assert_eq!(out.len(), 3);
    assert_eq!(out[0].id, "xt-a");
    assert_eq!(nonces(&out[0].put_inbox_txs), vec![5, 6]);
    assert!(out[1].put_inbox_txs.is_empty());
    assert_eq!(nonces(&out[2].put_inbox_txs), vec![7]);
}

#[test]
fn deliverables_fall_back_to_pending_nonce() {
    let mut coordinator = coordinator_with_builder();
    let out = coordinator
        .build_deliverable_put_inbox(vec![deliverable("xt-a", vec![test_dependency()])], &None, Some(12))
        .unwrap();
    assert_eq!(nonces(&out[0].put_inbox_txs), vec![12]);

    match coordinator.build_deliverable_put_inbox(vec![deliverable("xt-b", vec![test_dependency()])], &None, None) {
        Err(CoordinatorError::Nonce(m)) => assert_eq!(m, "pending nonce unavailable"),
        _ => panic!("expected a nonce error"),
    }
}

#[test]
fn deliverables_without_dependencies_are_returned_unchanged() {
    let mut coordinator = DefaultCoordinator::new(ChainId(77777), 1000, VerificationConfig::default());
    let out = coordinator.build_deliverable_put_inbox(vec![deliverable("xt-a", Vec::new())], &None, None).unwrap();
    assert_eq!(out.len(), 1);
    assert!(out[0].put_inbox_txs.is_empty());
    match coordinator.build_deliverable_put_inbox(vec![deliverable("xt-b", vec![test_dependency()])], &None, Some(1)) {
        Err(CoordinatorError::PutInboxNotConfigured) => {}
        _ => panic!("expected PutInboxNotConfigured"),
    }
}

#[test]
fn failed_put_inbox_signing_makes_the_builder_hold() {
    let mut coordinator = DefaultCoordinator::new(ChainId(77777), 1000, VerificationConfig::default());
    let response = coordinator.deliver_poll_response(vec![deliverable("xt-a", vec![test_dependency()])], &None, Some(1));
    assert!(response.hold);
    assert!(response.transactions.is_empty());
    assert_eq!(response.poll_after_ms, Some(50));
    assert_eq!(response.max_hold_ms, Some(1000));

    let mut coordinator = coordinator_with_builder();
    let response = coordinator.deliver_poll_response(
        vec![deliverable("xt-a", vec![test_dependency()])],
        &Some(signer_nonce_override(4)),
        None,
    );
    assert!(!response.hold);
    assert_eq!(response.transactions.len(), 1);
    assert_eq!(response.transactions[0].instance_id, "xt-a");
    assert_eq!(nonces(&response.transactions[0].transactions[..1]), vec![4]);
    assert_eq!(response.transactions[0].transactions[1], vec![1]);
}
