use ethera_sidecar::mailbox::{
    decode_session_id, dep_key, encode_session_id, matches_dependency, InMemoryQueue,
};
use ethera_sidecar::types::{ChainId, CrossRollupDependency, MailboxMessage};

fn message(source: u64, dest: u64, session: u64, label: &str) -> MailboxMessage {
    MailboxMessage {
        instance_id: Vec::new(),
        source_chain: source,
        destination_chain: dest,
        source: vec![0u8; 20],
        receiver: vec![0u8; 20],
        label: label.to_string(),
        data: Vec::new(),
        session_id: session,
    }
}

fn u256(n: u64) -> [u8; 32] {
    let mut w = [0u8; 32];
    w[24..].copy_from_slice(&n.to_be_bytes());
    w
}

fn dependency(session: u64) -> CrossRollupDependency {
    CrossRollupDependency {
        source_chain_id: ChainId(901),
        dest_chain_id: ChainId(902),
        sender: [0u8; 20],
        receiver: [0u8; 20],
        label: b"transfer".to_vec(),
        data: None,
        session_id: Some(u256(session)),
    }
}

#[test]
fn matching_message() {
    assert!(matches_dependency(&message(901, 902, 42, "transfer"), &dependency(42)));
}

#[test]
fn non_matching_chain() {
    assert!(!matches_dependency(&message(901, 903, 42, "transfer"), &dependency(42)));
}

#[test]
fn non_matching_session() {
    assert!(!matches_dependency(&message(901, 902, 41, "transfer"), &dependency(42)));
}

#[test]
fn non_matching_label() {
    assert!(!matches_dependency(&message(901, 902, 42, "other"), &dependency(42)));
}

#[test]
fn dependency_without_session_matches_session_zero() {
    let mut dep = dependency(0);
    dep.session_id = None;
    assert!(matches_dependency(&message(901, 902, 0, "transfer"), &dep));
    assert!(!matches_dependency(&message(901, 902, 1, "transfer"), &dep));
}

#[test]
fn dependency_session_above_u64_matches_no_message() {
    let mut dep = dependency(0);
    let mut wide = [0u8; 32];
    wide[23] = 1; // 2^64
    dep.session_id = Some(wide);
    assert!(!matches_dependency(&message(901, 902, 0, "transfer"), &dep));
    assert!(!matches_dependency(&message(901, 902, u64::MAX, "transfer"), &dep));
}

#[test]
fn record_and_retrieve() {
    let mut queue = InMemoryQueue::new();
    let mut msg = message(901, 902, 0, "transfer");
    msg.instance_id = b"test-id".to_vec();
    queue.record(&msg).unwrap();
    let pending = queue.pending(b"test-id").unwrap();
    assert_eq!(pending.len(), 1);
    assert_eq!(pending[0].source_chain, 901);
    assert!(queue.pending(b"other-id").unwrap().is_empty());
}

#[test]
fn queue_keeps_arrival_order_per_instance() {
    let mut queue = InMemoryQueue::new();
    for (i, label) in ["a", "b", "c"].iter().enumerate() {
        let mut msg = message(901, 902, i as u64, label);
        msg.instance_id = b"xt".to_vec();
        queue.record(&msg).unwrap();
    }
    let pending = queue.pending(b"xt").unwrap();
    let labels: Vec<&str> = pending.iter().map(|m| m.label.as_str()).collect();
    assert_eq!(labels, vec!["a", "b", "c"]);
}

#[test]
fn dependency_key_spells_every_field() {
    let mut dep = dependency(42);
    dep.sender = [0x11; 20];
    dep.label = b"SEND".to_vec();
    assert_eq!(
        dep_key(&dep),
        format!("901:902:{}:{}:42:53454e44", "11".repeat(20), "00".repeat(20))
    );
}

#[test]
fn session_id_round_trips() {
    let id = u256(0x0102);
    let bytes = encode_session_id(id);
    assert_eq!(bytes.len(), 32);
    assert_eq!(decode_session_id(&bytes), Some(id));
    assert_eq!(decode_session_id(&bytes[..31]), None);
}
