use alloy::consensus::{SignableTransaction, TxEip1559, TxEnvelope};
use alloy::network::eip2718::Encodable2718;
use alloy::network::TxSignerSync;
use alloy::primitives::{TxKind, B256, U256};
use alloy::signers::local::PrivateKeySigner;
use ethera_sidecar::admission::{build_sender_nonce_cache, decode_sender_nonce};
use ethera_sidecar::coordinator::{DefaultCoordinator, VerificationConfig};
use ethera_sidecar::overrides::{AccountOverride, StateOverride};
use ethera_sidecar::poll::{BuilderPollRequest, PollPlan};
use ethera_sidecar::types::{ChainId, SequenceNumber};
use ethera_sidecar::xt::{ChainTxs, PendingXt};

const CHAIN: ChainId = ChainId(77777);

fn signer() -> PrivateKeySigner {
    PrivateKeySigner::from_bytes(&B256::repeat_byte(7)).unwrap()
}

fn make_signed_tx(signer: &PrivateKeySigner, nonce: u64) -> Vec<u8> {
    let mut tx = TxEip1559 {
        chain_id: CHAIN.0,
        nonce,
        gas_limit: 21_000,
        max_fee_per_gas: 20_000_000_000,
        max_priority_fee_per_gas: 1_000_000_000,
        to: TxKind::Call(alloy::primitives::Address::ZERO),
        value: U256::ZERO,
        access_list: Default::default(),
        input: Default::default(),
    };
    let sig = signer.sign_transaction_sync(&mut tx).unwrap();
    TxEnvelope::from(tx.into_signed(sig)).encoded_2718()
}

fn make_poll_req(flashblock_index: u64, overrides: Option<StateOverride>) -> BuilderPollRequest {
    BuilderPollRequest {
        chain_id: CHAIN,
        block_number: 100,
        flashblock_index,
        state_root: [0u8; 32],
        timestamp: 0,
        gas_limit: 30_000_000,
        state_overrides: overrides,
    }
}

fn nonce_override(sender: [u8; 20], nonce: u64) -> StateOverride {
    StateOverride {
        accounts: vec![AccountOverride {
            address: sender,
            balance: None,
            nonce: Some(nonce),
            code: None,
            state: None,
            state_diff: None,
        }],
    }
}

fn committed_xt(id: &str, raw: Vec<u8>, seq: u64) -> PendingXt {
    let mut xt = PendingXt::new(id.to_string(), id.as_bytes().to_vec(), 0);
    xt.raw_txs.push(ChainTxs { chain_id: CHAIN, txs: vec![raw] });
    xt.sender_nonces = build_sender_nonce_cache(&xt.raw_txs);
    xt.sequence_num = SequenceNumber(seq);
    xt.record_decision(true, 1);
    xt
}

fn delivered_ids(plan: &PollPlan) -> Vec<String> {
    match plan {
        PollPlan::Deliver { deliverables } => deliverables.iter().map(|d| d.id.clone()).collect(),
        _ => Vec::new(),
    }
}

fn coordinator() -> DefaultCoordinator {
    DefaultCoordinator::new(CHAIN, 1000, VerificationConfig::default())
}

#[test]
fn signed_transaction_sender_and_nonce_are_recovered() {
    let s = signer();
    let raw = make_signed_tx(&s, 9);
    assert_eq!(decode_sender_nonce(&raw), Some((s.address().into_array(), 9)));
    assert_eq!(decode_sender_nonce(&[0x01, 0x02]), None);
}

#[test]
fn builder_poll_returns_empty_when_no_pending() {
    let mut c = coordinator();
    let plan = c.handle_builder_poll(&make_poll_req(1, None), false);
    assert!(matches!(plan, PollPlan::Idle));
}

#[test]
fn builder_poll_returns_hold_when_undecided_xt_exists() {
    let mut c = coordinator();
    let mut xt = PendingXt::new("xt-1".to_string(), b"xt-1".to_vec(), 0);
    xt.raw_txs.push(ChainTxs { chain_id: CHAIN, txs: vec![vec![0xde, 0xad]] });
    xt.vote_sent = true;
    c.state.pending.push(xt);
    let plan = c.handle_builder_poll(&make_poll_req(1, None), false);
    assert!(matches!(plan, PollPlan::Hold));
}

#[test]
fn builder_poll_starts_simulation_of_first_undecided_xt() {
    let mut c = coordinator();
    let mut xt = PendingXt::new("xt-1".to_string(), b"xt-1".to_vec(), 0);
    xt.raw_txs.push(ChainTxs { chain_id: CHAIN, txs: vec![vec![0xde, 0xad]] });
    c.state.pending.push(xt);
    match c.handle_builder_poll(&make_poll_req(1, None), false) {
        PollPlan::Simulate { instance_id } => assert_eq!(instance_id, "xt-1"),
        other => panic!("unexpected plan {other:?}"),
    }
    assert_eq!(c.state.pending[0].locked_chains, vec![CHAIN]);
    // already locked: the builder now holds
    assert!(matches!(c.handle_builder_poll(&make_poll_req(2, None), false), PollPlan::Hold));
}

#[test]
fn builder_poll_skips_aborted_xts() {
    let mut c = coordinator();
    let mut xt = PendingXt::new("xt-1".to_string(), b"xt-1".to_vec(), 0);
    xt.raw_txs.push(ChainTxs { chain_id: CHAIN, txs: vec![vec![1]] });
    xt.record_decision(false, 1);
    c.state.pending.push(xt);
    let plan = c.handle_builder_poll(&make_poll_req(1, None), false);
    assert!(matches!(plan, PollPlan::Idle));
}

#[test]
fn builder_poll_returns_committed_txs() {
    let mut c = coordinator();
    let s = signer();
    c.state.pending.push(committed_xt("xt-1", make_signed_tx(&s, 0), 0));
    let overrides = nonce_override(s.address().into_array(), 0);
    let plan = c.handle_builder_poll(&make_poll_req(1, Some(overrides)), false);
    assert_eq!(delivered_ids(&plan), vec!["xt-1".to_string()]);
}

#[test]
fn builder_poll_skips_xts_with_nonce_gap() {
    let mut c = coordinator();
    let s = signer();
    c.state.pending.push(committed_xt("xt-a", make_signed_tx(&s, 5), 1));
    c.state.pending.push(committed_xt("xt-b", make_signed_tx(&s, 7), 2));
    let overrides = nonce_override(s.address().into_array(), 5);
    let plan = c.handle_builder_poll(&make_poll_req(1, Some(overrides)), false);
    assert_eq!(delivered_ids(&plan), vec!["xt-a".to_string()], "only nonce 5 should be delivered");
}

#[test]
fn builder_poll_redelivers_when_nonce_unchanged() {
    let mut c = coordinator();
    let s = signer();
    c.state.pending.push(committed_xt("xt-1", make_signed_tx(&s, 3), 0));
    let addr = s.address().into_array();
    let plan1 = c.handle_builder_poll(&make_poll_req(1, Some(nonce_override(addr, 3))), false);
    assert_eq!(delivered_ids(&plan1).len(), 1);
    // Nonce unchanged: the builder did not include it, so it is delivered again.
    let plan2 = c.handle_builder_poll(&make_poll_req(1, Some(nonce_override(addr, 3))), false);
    assert_eq!(delivered_ids(&plan2).len(), 1, "should redeliver when nonce unchanged");
}

#[test]
fn builder_poll_skips_already_included_xt() {
    let mut c = coordinator();
    let s = signer();
    c.state.pending.push(committed_xt("xt-1", make_signed_tx(&s, 3), 0));
    // Nonce already past this XT: it was included on-chain.
    let overrides = nonce_override(s.address().into_array(), 4);
    let plan = c.handle_builder_poll(&make_poll_req(1, Some(overrides)), false);
    assert!(delivered_ids(&plan).is_empty(), "should skip already-included XT");
}

#[test]
fn flashblock_zero_gets_nothing() {
    let mut c = coordinator();
    let s = signer();
    c.state.pending.push(committed_xt("xt-1", make_signed_tx(&s, 0), 0));
    let plan = c.handle_builder_poll(&make_poll_req(0, Some(nonce_override(s.address().into_array(), 0))), false);
    assert!(matches!(plan, PollPlan::Idle));
    assert!(c.state.chain_states.is_empty());
}
