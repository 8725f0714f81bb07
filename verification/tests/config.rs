use ethera_sidecar::config::{ChainArgs, PeerArgs, PeerConfigError, PeerEntry};
use ethera_sidecar::types::ChainId;

fn peers_from(values: &[&str]) -> PeerArgs {
    let mut entries = Vec::new();
    for v in values {
        entries.push(v.parse::<PeerEntry>().unwrap());
    }
    PeerArgs::new(entries)
}

fn chain_args(rpc: &str, builder_rpc: &str) -> ChainArgs {
    ChainArgs {
        id: 0,
        name: String::new(),
        rpc: rpc.to_string(),
        builder_rpc: builder_rpc.to_string(),
        mailbox_address: String::new(),
        coordinator_key: String::new(),
    }
}

#[test]
fn peer_entries_from_repeated_cli_args() {
    let args = peers_from(&["77777=http://sidecar-a:8090", "88888=http://sidecar-b:8090"]);
    let entries = args.entries().unwrap();
    assert_eq!(entries.len(), 2);
    assert_eq!(entries[0].chain_id, ChainId(77777));
    assert_eq!(entries[0].addr, "http://sidecar-a:8090");
    assert_eq!(entries[1].chain_id, ChainId(88888));
    assert_eq!(entries[1].addr, "http://sidecar-b:8090");
}

#[test]
fn peer_no_peers_when_none_configured() {
    let args = PeerArgs::new(Vec::new());
    assert!(args.entries().unwrap().is_empty());
}

#[test]
fn peer_entry_requires_chain_id_and_addr() {
    assert_eq!(
        "http://sidecar-a:8090".parse::<PeerEntry>().unwrap_err(),
        PeerConfigError::MissingSeparator
    );
    assert_eq!(
        "=http://sidecar-a:8090".parse::<PeerEntry>().unwrap_err(),
        PeerConfigError::EmptyChainId
    );
    assert_eq!(
        "abc=http://sidecar-a:8090".parse::<PeerEntry>().unwrap_err(),
        PeerConfigError::InvalidChainId("abc".to_string())
    );
    assert_eq!(
        "77777=".parse::<PeerEntry>().unwrap_err(),
        PeerConfigError::EmptyAddress
    );
}

#[test]
fn duplicate_peer_chain_ids_are_rejected() {
    let args = peers_from(&["77777=http://sidecar-a:8090", "77777=http://sidecar-b:8090"]);
    let error = args.entries().unwrap_err();
    assert_eq!(error, PeerConfigError::DuplicateChainId(ChainId(77777)));
}

#[test]
fn builder_rpc_falls_back_to_chain_rpc() {
    let args = chain_args("http://localhost:8545", "");
    assert_eq!(args.builder_rpc_url(), "http://localhost:8545");
}

#[test]
fn builder_rpc_prefers_explicit_builder_endpoint() {
    let args = chain_args("http://localhost:8545", "http://builder:9545");
    assert_eq!(args.builder_rpc_url(), "http://builder:9545");
    assert_eq!(args.chain_id(), ChainId(0));
}

#[test]
fn peer_entry_trims_and_parses() {
    let e = " 901 = http://peer:1 ".parse::<PeerEntry>().unwrap();
    assert_eq!(e.chain_id, ChainId(901));
    assert_eq!(e.addr, "http://peer:1");
    assert_eq!(
        "18446744073709551616=x".parse::<PeerEntry>().unwrap_err(),
        PeerConfigError::InvalidChainId("18446744073709551616".to_string())
    );
}

#[test]
fn first_repeated_chain_id_is_reported() {
    let args = peers_from(&["1=a", "2=b", "2=c", "1=d"]);
    assert_eq!(args.entries().unwrap_err(), PeerConfigError::DuplicateChainId(ChainId(2)));
}

#[test]
fn peer_entry_trims_unicode_whitespace_as_std_does() {
    for c in (0u32..=0x3100).chain([0xFEFF, 0x1F600, 0x10FFFF]).filter_map(char::from_u32) {
        let text = format!("{c}901={c}http://a{c}");
        let parsed = PeerEntry::parse(&text);
        if c.is_whitespace() {
            let e = parsed.unwrap();
            assert_eq!(e.chain_id, ChainId(901));
            assert_eq!(e.addr, "http://a");
        } else if c != '=' {
            assert!(parsed.is_err() || parsed.unwrap().addr != "http://a", "{:x}", c as u32);
        }
    }
}
