use ethera_sidecar::mailbox::MailboxCallType;
use ethera_sidecar::parser::{calldata_selector, parse_call_trace, TraceNode};
use ethera_sidecar::types::ChainId;

fn addr(s: &str) -> [u8; 20] {
    let mut a = [0u8; 20];
    a.copy_from_slice(&hex::decode(s.trim_start_matches("0x")).unwrap());
    a
}

fn u256(n: u64) -> [u8; 32] {
    let mut w = [0u8; 32];
    w[24..].copy_from_slice(&n.to_be_bytes());
    w
}

fn node(from: &str, to: &str, input: &str) -> TraceNode {
    TraceNode { from: from.to_string(), to: to.to_string(), input: input.to_string(), calls: Vec::new() }
}

const MAILBOX: &str = "0xe5d5d610fb9767df117f4076444b45404201a097";

#[test]
fn parses_write_call_trace() {
    let mailbox = addr(MAILBOX);
    let caller = "0xf5fe1b951c5cdf2d4299f8e63444ff621cd2fed9";
    let trace = node(caller, MAILBOX, "0xcf80ca9a0000000000000000000000000000000000000000000000000000000000015b38000000000000000000000000f5fe1b951c5cdf2d4299f8e63444ff621cd2fed902225347b4e7ad5a193d489b7170fd8530c06c3426e337fe1cfbfbd9ae4e7a2800000000000000000000000000000000000000000000000000000000000000a000000000000000000000000000000000000000000000000000000000000000e0000000000000000000000000000000000000000000000000000000000000000453454e440000000000000000000000000000000000000000000000000000000000000000000000000000000000000000000000000000000000000000000000800000000000000000000000004bcf3d44f2531497e82be4556f380b0a414aa9ce0000000000000000000000004bcf3d44f2531497e82be4556f380b0a414aa9ce00000000000000000000000047c286e684645f1ec602928707084edb241c57c70000000000000000000000000000000000000000000000001bc16d674ec80000");
    let parsed = parse_call_trace(&trace, mailbox, ChainId(77777));
    assert_eq!(parsed.reads.len(), 0);
    assert_eq!(parsed.writes.len(), 1);
    assert_eq!(parsed.writes[0].source_chain, ChainId(77777));
    assert_eq!(parsed.writes[0].dest_chain, ChainId(88888));
    assert_eq!(parsed.writes[0].sender, addr(caller));
    assert_eq!(parsed.writes[0].receiver, addr(caller));
    assert_eq!(parsed.writes[0].label, "SEND");
    assert_eq!(parsed.writes[0].data.len(), 128);
    assert!(matches!(parsed.writes[0].call_type, MailboxCallType::Write));
}

#[test]
fn parses_read_call_trace() {
    let mailbox = addr(MAILBOX);
    let caller = "0xf5fe1b951c5cdf2d4299f8e63444ff621cd2fed9";
    let trace = node(caller, MAILBOX, "0xe8c7e15f0000000000000000000000000000000000000000000000000000000000012fd1000000000000000000000000f5fe1b951c5cdf2d4299f8e63444ff621cd2fed902225347b4e7ad5a193d489b7170fd8530c06c3426e337fe1cfbfbd9ae4e7a280000000000000000000000000000000000000000000000000000000000000080000000000000000000000000000000000000000000000000000000000000000453454e4400000000000000000000000000000000000000000000000000000000");
    let parsed = parse_call_trace(&trace, mailbox, ChainId(88888));
    assert_eq!(parsed.writes.len(), 0);
    assert_eq!(parsed.reads.len(), 1);
    assert_eq!(parsed.reads[0].source_chain, ChainId(77777));
    assert_eq!(parsed.reads[0].dest_chain, ChainId(88888));
    assert_eq!(parsed.reads[0].sender, addr(caller));
    assert_eq!(parsed.reads[0].receiver, addr(caller));
    assert_eq!(parsed.reads[0].label, "SEND");
}

const WRITE_MESSAGE: &str = "0x85f178d00000000000000000000000000000000000000000000000000000000000000020000000000000000000000000000000000000000000000000000000000000004000000000000000000000000000000000000000000000000000000000000001400000000000000000000000000000000000000000000000000000000000012fd10000000000000000000000000000000000000000000000000000000000015b3800000000000000000000000011111111111111111111111111111111111111110000000000000000000000002222222222222222222222222222222222222222000000000000000000000000000000000000000000000000000000000000002a00000000000000000000000000000000000000000000000000000000000000c0000000000000000000000000000000000000000000000000000000000000000853454e445f45544800000000000000000000000000000000000000000000000000000000000000000000000000000000000000000000000000000000000000030102030000000000000000000000000000000000000000000000000000000000";

#[test]
fn parses_write_message_call_trace() {
    let mailbox = addr(MAILBOX);
    let caller = "0x1111111111111111111111111111111111111111";
    let receiver = "0x2222222222222222222222222222222222222222";
    let trace = node(caller, MAILBOX, WRITE_MESSAGE);
    let parsed = parse_call_trace(&trace, mailbox, ChainId(77777));
    assert_eq!(parsed.reads.len(), 0);
    assert_eq!(parsed.writes.len(), 1);
    assert_eq!(parsed.writes[0].source_chain, ChainId(77777));
    assert_eq!(parsed.writes[0].dest_chain, ChainId(88888));
    assert_eq!(parsed.writes[0].sender, addr(caller));
    assert_eq!(parsed.writes[0].receiver, addr(receiver));
    assert_eq!(parsed.writes[0].label, "SEND_ETH");
    assert_eq!(parsed.writes[0].data, vec![1, 2, 3]);
    assert_eq!(parsed.writes[0].session_id, Some(u256(42)));
}

#[test]
fn parses_read_message_call_trace() {
    let mailbox = addr(MAILBOX);
    let sender = "0x1111111111111111111111111111111111111111";
    let receiver = "0x2222222222222222222222222222222222222222";
    let trace = node("0x3333333333333333333333333333333333333333", MAILBOX, "0x3b6b1a5600000000000000000000000000000000000000000000000000000000000000200000000000000000000000000000000000000000000000000000000000012fd10000000000000000000000000000000000000000000000000000000000015b3800000000000000000000000011111111111111111111111111111111111111110000000000000000000000002222222222222222222222222222222222222222000000000000000000000000000000000000000000000000000000000000002a00000000000000000000000000000000000000000000000000000000000000c0000000000000000000000000000000000000000000000000000000000000000853454e445f455448000000000000000000000000000000000000000000000000");
    let parsed = parse_call_trace(&trace, mailbox, ChainId(99999));
    assert_eq!(parsed.writes.len(), 0);
    assert_eq!(parsed.reads.len(), 1);
    assert_eq!(parsed.reads[0].source_chain, ChainId(77777));
    assert_eq!(parsed.reads[0].dest_chain, ChainId(88888));
    assert_eq!(parsed.reads[0].sender, addr(sender));
    assert_eq!(parsed.reads[0].receiver, addr(receiver));
    assert_eq!(parsed.reads[0].label, "SEND_ETH");
    assert_eq!(parsed.reads[0].session_id, Some(u256(42)));
}

#[test]
fn nested_calls_are_walked_in_preorder() {
    let mailbox = addr(MAILBOX);
    let caller = "0x1111111111111111111111111111111111111111";
    let mut root = node(caller, "0x9999999999999999999999999999999999999999", "0x");
    let mut child = node(caller, MAILBOX, WRITE_MESSAGE);
    child.calls.push(node(caller, MAILBOX, WRITE_MESSAGE));
    root.calls.push(child);
    // a call to another contract with the same input is ignored
    root.calls.push(node(caller, "0x4444444444444444444444444444444444444444", WRITE_MESSAGE));
    let parsed = parse_call_trace(&root, mailbox, ChainId(77777));
    assert_eq!(parsed.writes.len(), 2);
    assert_eq!(parsed.reads.len(), 0);
}

#[test]
fn write_without_parsable_caller_is_skipped() {
    let mailbox = addr(MAILBOX);
    let trace = node("not-an-address", MAILBOX, WRITE_MESSAGE);
    assert_eq!(parse_call_trace(&trace, mailbox, ChainId(1)).writes.len(), 0);
    let upper = node("0X1111111111111111111111111111111111111111", "0XE5D5D610FB9767DF117F4076444B45404201A097", WRITE_MESSAGE);
    assert_eq!(parse_call_trace(&upper, mailbox, ChainId(1)).writes.len(), 1);
}

#[test]
fn selector_is_read_from_hex_calldata() {
    assert_eq!(calldata_selector("0x3b6b1a56ff"), Some([0x3b, 0x6b, 0x1a, 0x56]));
    assert_eq!(calldata_selector("cf80ca9a"), Some([0xcf, 0x80, 0xca, 0x9a]));
    assert_eq!(calldata_selector("0x3b6b1a5"), None);
    assert_eq!(calldata_selector("0xzz6b1a56"), None);
}
