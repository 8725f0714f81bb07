use alloy::primitives::{keccak256, U256};
use ethera_sidecar::overrides::{
    merge_overrides, merge_overrides_owned, sender_nonce_from_overrides, AccountOverride,
    SlotValue, StateOverride,
};
use ethera_sidecar::storage::build_mailbox_state_overrides;
use ethera_sidecar::types::{ChainId, CrossRollupDependency};

fn addr(s: &str) -> [u8; 20] {
    let mut a = [0u8; 20];
    a.copy_from_slice(&hex::decode(s.trim_start_matches("0x")).unwrap());
    a
}

fn account(address: [u8; 20]) -> AccountOverride {
    AccountOverride { address, balance: None, nonce: None, code: None, state: None, state_diff: None }
}

fn u256(n: u64) -> [u8; 32] {
    let mut w = [0u8; 32];
    w[24..].copy_from_slice(&n.to_be_bytes());
    w
}

fn slot_value(diff: &[SlotValue], slot: [u8; 32]) -> Option<[u8; 32]> {
    diff.iter().find(|e| e.slot == slot).map(|e| e.value)
}

#[test]
fn merge_overrides_combines_accounts() {
    let a = addr("0xaabbccddeeaabbccddeeaabbccddeeaabbccddee");
    let mut base = StateOverride { accounts: vec![AccountOverride { nonce: Some(1), ..account(a) }] };
    let other = StateOverride {
        accounts: vec![AccountOverride { balance: Some(u256(0x100)), ..account(a) }],
    };
    merge_overrides(&mut base, &other);
    let acct = base.accounts.iter().find(|x| x.address == a).unwrap();
    assert_eq!(acct.nonce, Some(1));
    assert_eq!(acct.balance, Some(u256(0x100)));
}

#[test]
fn merge_overrides_merges_state_diff() {
    let a = addr("0xaabbccddeeaabbccddeeaabbccddeeaabbccddee");
    let slot1 = [0x01u8; 32];
    let slot2 = [0x02u8; 32];
    let val1 = [0x10u8; 32];
    let val2 = [0x20u8; 32];
    let mut base = StateOverride {
        accounts: vec![AccountOverride {
            state_diff: Some(vec![SlotValue { slot: slot1, value: val1 }]),
            ..account(a)
        }],
    };
    let overlay = StateOverride {
        accounts: vec![AccountOverride {
            state_diff: Some(vec![SlotValue { slot: slot2, value: val2 }]),
            ..account(a)
        }],
    };
    merge_overrides(&mut base, &overlay);
    let diff = base.accounts[0].state_diff.as_ref().unwrap();
    assert_eq!(diff.len(), 2);
    assert_eq!(slot_value(diff, slot1), Some(val1));
    assert_eq!(slot_value(diff, slot2), Some(val2));
}

#[test]
fn overlay_state_replaces_base_diff() {
    let a = [7u8; 20];
    let mut base = StateOverride {
        accounts: vec![AccountOverride {
            state_diff: Some(vec![SlotValue { slot: [1; 32], value: [1; 32] }]),
            nonce: Some(3),
            ..account(a)
        }],
    };
    let overlay = StateOverride {
        accounts: vec![
            AccountOverride { state: Some(vec![SlotValue { slot: [2; 32], value: [2; 32] }]), ..account(a) },
            AccountOverride { nonce: Some(9), ..account([8u8; 20]) },
        ],
    };
    merge_overrides_owned(&mut base, overlay);
    assert_eq!(base.accounts.len(), 2);
    let acct = base.accounts.iter().find(|x| x.address == a).unwrap();
    assert!(acct.state_diff.is_none());
    assert_eq!(slot_value(acct.state.as_ref().unwrap(), [2; 32]), Some([2; 32]));
    assert_eq!(acct.nonce, Some(3));
    assert_eq!(sender_nonce_from_overrides(&base, &[8u8; 20]), Some(9));
    assert_eq!(sender_nonce_from_overrides(&base, &[9u8; 20]), None);
}

fn fulfilled_dep() -> CrossRollupDependency {
    CrossRollupDependency {
        source_chain_id: ChainId(77777),
        dest_chain_id: ChainId(88888),
        sender: [0x11; 20],
        receiver: [0x22; 20],
        label: b"SEND".to_vec(),
        data: Some(vec![1, 2, 3]),
        session_id: Some(u256(42)),
    }
}

#[test]
fn builds_mailbox_overrides_for_fulfilled_dep() {
    let mailbox = addr("0xe5d5d610fb9767df117f4076444b45404201a097");
    let overrides = build_mailbox_state_overrides(ChainId(88888), mailbox, &[fulfilled_dep()]).unwrap();
    let account = overrides.accounts.iter().find(|x| x.address == mailbox).unwrap();
    let diff = account.state_diff.as_ref().unwrap();
    assert!(!diff.is_empty());
}

#[test]
fn mailbox_overrides_follow_storage_layout() {
    let mailbox = [0x55u8; 20];
    let overrides = build_mailbox_state_overrides(ChainId(88888), mailbox, &[fulfilled_dep()]).unwrap();
    let diff = overrides.accounts[0].state_diff.as_ref().unwrap();
    // key = keccak(src ++ dest ++ sender ++ receiver ++ session ++ label)
    let mut pre = Vec::new();
    pre.extend_from_slice(&u256(77777));
    pre.extend_from_slice(&u256(88888));
    pre.extend_from_slice(&[0x11; 20]);
    pre.extend_from_slice(&[0x22; 20]);
    pre.extend_from_slice(&u256(42));
    pre.extend_from_slice(b"SEND");
    let key = keccak256(&pre).0;
    let slot = |base: u64| {
        let mut p = key.to_vec();
        p.extend_from_slice(&u256(base));
        keccak256(&p).0
    };
    let mut short = [0u8; 32];
    short[..3].copy_from_slice(&[1, 2, 3]);
    short[31] = 6;
    assert_eq!(diff.len(), 2);
    assert_eq!(slot_value(diff, slot(5)), Some(short));
    assert_eq!(slot_value(diff, slot(7)), Some(u256(1)));
}

#[test]
fn no_mailbox_overrides_without_fulfilled_data() {
    let mut dep = fulfilled_dep();
    dep.data = None;
    assert!(build_mailbox_state_overrides(ChainId(88888), [0u8; 20], &[dep]).is_none());
    assert!(build_mailbox_state_overrides(ChainId(77777), [0u8; 20], &[fulfilled_dep()]).is_none());
}

#[test]
fn long_mailbox_payload_spills_into_chunks() {
    let mut dep = fulfilled_dep();
    let payload: Vec<u8> = (0u8..40).collect();
    dep.data = Some(payload.clone());
    let overrides = build_mailbox_state_overrides(ChainId(88888), [0x55u8; 20], &[dep]).unwrap();
    let diff = overrides.accounts[0].state_diff.as_ref().unwrap();
    // inbox slot, two chunks, created flag
    assert_eq!(diff.len(), 4);
    let len_entry = diff.iter().find(|e| e.value == u256(81)).unwrap();
    let base = U256::from_be_bytes(keccak256(len_entry.slot).0);
    let chunk0: [u8; 32] = payload[..32].try_into().unwrap();
    let mut chunk1 = [0u8; 32];
    chunk1[..8].copy_from_slice(&payload[32..]);
    assert_eq!(slot_value(diff, base.to_be_bytes::<32>()), Some(chunk0));
    assert_eq!(slot_value(diff, (base + U256::from(1u64)).to_be_bytes::<32>()), Some(chunk1));
}
