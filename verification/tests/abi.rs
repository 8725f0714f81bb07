use alloy::primitives::keccak256;
use ethera_sidecar::abi::{encode_put_inbox, encode_put_inbox_calldata};
use ethera_sidecar::put_inbox::{
    normalize_coordinator_key, put_inbox_nonces, put_inbox_tx, PutInboxTarget, PUT_INBOX_GAS_LIMIT,
};
use ethera_sidecar::types::{ChainId, CrossRollupDependency};

fn selector() -> Vec<u8> {
    keccak256("putInbox(uint256,address,address,uint256,string,bytes)".as_bytes())[..4].to_vec()
}

#[test]
fn encode_put_inbox_produces_valid_calldata() {
    let data = encode_put_inbox(901, [0u8; 20], [0u8; 20], [0u8; 32], b"SEND_TOKENS", b"hello").unwrap();
    assert!(data.len() > 4);
}

#[test]
fn put_inbox_calldata_layout() {
    let data = encode_put_inbox(901, [0x11; 20], [0x22; 20], [0u8; 32], b"AB", b"hello").unwrap();
    assert_eq!(data[..4].to_vec(), selector());
    let words = &data[4..];
    // six head words, then the string and the bytes tails
    assert_eq!(words.len(), 32 * 6 + 64 + 64);
    assert_eq!(words[30..32], [0x03, 0x85]); // 901
    assert_eq!(words[32 + 12..64], [0x11; 20]);
    assert_eq!(words[64 + 12..96], [0x22; 20]);
    assert_eq!(words[4 * 32 + 31], 0xc0); // label offset
    assert_eq!(words[6 * 32 + 31], 2); // label length
    assert_eq!(&words[7 * 32..7 * 32 + 2], b"AB");
    assert_eq!(words[8 * 32 + 31], 5); // data length
    assert_eq!(&words[9 * 32..9 * 32 + 5], b"hello");
}

#[test]
fn calldata_of_dependency_defaults_missing_fields() {
    let dep = CrossRollupDependency {
        source_chain_id: ChainId(7),
        dest_chain_id: ChainId(8),
        sender: [1; 20],
        receiver: [2; 20],
        label: b"L".to_vec(),
        data: None,
        session_id: None,
    };
    let a = encode_put_inbox_calldata(&dep).unwrap();
    let b = encode_put_inbox(7, [1; 20], [2; 20], [0u8; 32], b"L", b"").unwrap();
    assert_eq!(a, b);
}

#[test]
fn put_inbox_transaction_fields() {
    let target = PutInboxTarget { chain_id: ChainId(88888), mailbox_address: [9; 20], signer_address: [3; 20] };
    let dep = CrossRollupDependency {
        source_chain_id: ChainId(77777),
        dest_chain_id: ChainId(88888),
        sender: [1; 20],
        receiver: [2; 20],
        label: b"SEND".to_vec(),
        data: Some(vec![4, 5]),
        session_id: None,
    };
    let tx = put_inbox_tx(&target, &dep, 17).unwrap();
    assert_eq!(tx.from, [3; 20]);
    assert_eq!(tx.to, [9; 20]);
    assert_eq!(tx.chain_id, 88888);
    assert_eq!(tx.nonce, 17);
    assert_eq!(tx.gas_limit, PUT_INBOX_GAS_LIMIT);
    assert_eq!(tx.max_fee_per_gas, 20_000_000_000);
    assert_eq!(tx.input, encode_put_inbox_calldata(&dep).unwrap());
}

#[test]
fn nonce_run_counts_up_and_saturates() {
    assert_eq!(put_inbox_nonces(5, 3), vec![5, 6, 7]);
    assert_eq!(put_inbox_nonces(u64::MAX - 1, 3), vec![u64::MAX - 1, u64::MAX, u64::MAX]);
    assert!(put_inbox_nonces(5, 0).is_empty());
}

#[test]
fn coordinator_key_gets_hex_prefix() {
    assert_eq!(normalize_coordinator_key("abcd"), "0xabcd");
    assert_eq!(normalize_coordinator_key("0xabcd"), "0xabcd");
    assert_eq!(normalize_coordinator_key(""), "0x");
}
