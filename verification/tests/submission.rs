use ethera_sidecar::submission::{build_xt_request, encode_xt_request, xt_request_fingerprint};
use ethera_sidecar::types::ChainId;
use ethera_sidecar::xt::ChainTxs;
use sha2::Digest;

#[test]
fn build_xt_request_sorted() {
    let txs = vec![
        ChainTxs { chain_id: ChainId(902), txs: vec![vec![2]] },
        ChainTxs { chain_id: ChainId(901), txs: vec![vec![1]] },
    ];
    let req = build_xt_request(&txs);
    assert_eq!(req.transaction_requests.len(), 2);
    // First entry should be chain 901.
    assert_eq!(req.transaction_requests[0].chain_id, 901);
    assert_eq!(req.transaction_requests[1].chain_id, 902);
    assert_eq!(req.transaction_requests[1].transaction, vec![vec![2u8]]);
}

#[test]
fn fingerprint_deterministic() {
    let txs = vec![ChainTxs { chain_id: ChainId(901), txs: vec![vec![1, 2, 3]] }];
    let req = build_xt_request(&txs);
    let fp1 = xt_request_fingerprint(&req);
    let fp2 = xt_request_fingerprint(&req);
    assert_eq!(fp1, fp2);
    assert_eq!(fp1.len(), 32); // 16 bytes as hex
}

#[test]
fn xt_request_encoding_is_protobuf() {
    let txs = vec![ChainTxs { chain_id: ChainId(901), txs: vec![vec![1, 2, 3]] }];
    let req = build_xt_request(&txs);
    // field 1 (len 9): { field 1 varint 901, field 2 bytes [1,2,3] }
    assert_eq!(
        encode_xt_request(&req),
        vec![0x0a, 0x08, 0x08, 0x85, 0x07, 0x12, 0x03, 1, 2, 3]
    );
}

#[test]
fn fingerprint_is_hex_of_sha256_prefix() {
    let txs = vec![
        ChainTxs { chain_id: ChainId(77777), txs: vec![vec![0xaa], vec![0xbb, 0xcc]] },
        ChainTxs { chain_id: ChainId(88888), txs: vec![vec![]] },
    ];
    let req = build_xt_request(&txs);
    let digest = sha2::Sha256::digest(encode_xt_request(&req));
    assert_eq!(xt_request_fingerprint(&req), hex::encode(&digest[..16]));
}

#[test]
fn same_transactions_in_any_order_give_same_fingerprint() {
    let a = vec![
        ChainTxs { chain_id: ChainId(2), txs: vec![vec![9]] },
        ChainTxs { chain_id: ChainId(1), txs: vec![vec![8]] },
    ];
    let b = vec![
        ChainTxs { chain_id: ChainId(1), txs: vec![vec![8]] },
        ChainTxs { chain_id: ChainId(2), txs: vec![vec![9]] },
    ];
    assert_eq!(
        xt_request_fingerprint(&build_xt_request(&a)),
        xt_request_fingerprint(&build_xt_request(&b))
    );
}
