//! ABI encoding of the mailbox's `putInbox` call, which delivers a fulfilled
//! dependency to the destination chain.

use alloy::sol_types::SolValue;
use vstd::prelude::*;
use vstd::string::StringSliceAdditionalSpecFns;

use crate::mailbox::MailboxError;
use crate::parser::{spec_utf8_lossy, utf8_lossy};
use crate::storage::{keccak256, spec_keccak256, u256_word};
use crate::types::{Address, CrossRollupDependency, U256};

verus! {

broadcast use vstd::seq::group_seq_axioms;

/// The Solidity signature of `putInbox`.
pub open spec fn put_inbox_signature() -> Seq<char> {
    "putInbox(uint256,address,address,uint256,string,bytes)"@
}

/// The 4-byte selector of `putInbox`: the first bytes of the Keccak-256
/// digest of its signature.
pub open spec fn put_inbox_selector() -> Seq<u8> {
    spec_keccak256(vstd::utf8::encode_utf8(put_inbox_signature())).take(4)
}

/// The ABI encoding of the `putInbox` parameters
/// `(uint256, address, address, uint256, string, bytes)`.
pub uninterp spec fn spec_put_inbox_params(
    chain_message_sender: u64,
    sender: Seq<u8>,
    receiver: Seq<u8>,
    session_id: Seq<u8>,
    label: Seq<char>,
    data: Seq<u8>,
) -> Seq<u8>;

/// `SolValue::abi_encode_params` on the `putInbox` argument tuple: its ABI
/// encoding, which depends on the arguments alone and is left unstated.
#[verifier::external_body]
fn abi_encode_put_inbox_params(
    chain_message_sender: u64,
    sender: &Address,
    receiver: &Address,
    session_id: &U256,
    label: String,
    data: &[u8],
) -> (r: Vec<u8>)
    ensures
        r@ == spec_put_inbox_params(
            chain_message_sender,
            sender@,
            receiver@,
            session_id@,
            label@,
            data@,
        ),
{
    let args = (
        alloy::primitives::U256::from(chain_message_sender),
        alloy::primitives::Address::from(*sender),
        alloy::primitives::Address::from(*receiver),
        alloy::primitives::U256::from_be_bytes(*session_id),
        label,
        alloy::primitives::Bytes::copy_from_slice(data),
    );
    args.abi_encode_params()
}

/// The `putInbox` calldata: the selector, then the encoded parameters, with
/// the label taken as (lossy) UTF-8 text.
pub open spec fn spec_put_inbox_calldata(
    source_chain_id: u64,
    sender: Seq<u8>,
    receiver: Seq<u8>,
    session_id: Seq<u8>,
    label: Seq<u8>,
    data: Seq<u8>,
) -> Seq<u8> {
    put_inbox_selector() + spec_put_inbox_params(
        source_chain_id,
        sender,
        receiver,
        session_id,
        spec_utf8_lossy(label),
        data,
    )
}

/// Encodes a `putInbox` call.
pub fn encode_put_inbox(
    source_chain_id: u64,
    sender: Address,
    receiver: Address,
    session_id: U256,
    label: &[u8],
    data: &[u8],
) -> (r: Result<Vec<u8>, MailboxError>)
    ensures
        r matches Ok(v) && v@ == spec_put_inbox_calldata(
            source_chain_id,
            sender@,
            receiver@,
            session_id@,
            label@,
            data@,
        ),
{
    let signature = "putInbox(uint256,address,address,uint256,string,bytes)";
    let digest = keccak256(signature.as_bytes());
    let mut out: Vec<u8> = Vec::new();
    let mut i: usize = 0;
    while i < 4
        invariant
            0 <= i <= 4,
            digest@.len() == 32,
            out@ == digest@.take(i as int),
        decreases 4 - i,
    {
        out.push(digest[i]);
        i = i + 1;
        assert(out@ =~= digest@.take(i as int));
    }
    let params = abi_encode_put_inbox_params(
        source_chain_id,
        &sender,
        &receiver,
        &session_id,
        utf8_lossy(label),
        data,
    );
    let ghost head = out@;
    let mut k: usize = 0;
    while k < params.len()
        invariant
            0 <= k <= params@.len(),
            out@ == head + params@.take(k as int),
        decreases params@.len() - k,
    {
        out.push(params[k]);
        k = k + 1;
        assert(out@ =~= head + params@.take(k as int));
    }
    proof {
        assert(params@.take(params@.len() as int) =~= params@);
        assert(signature.spec_bytes() == vstd::utf8::encode_utf8(put_inbox_signature()));
    }
    Ok(out)
}

/// The session id word of a dependency for `putInbox`; zero when absent.
pub open spec fn put_inbox_session(dep: CrossRollupDependency) -> Seq<u8> {
    match dep.session_id {
        Some(s) => s@,
        None => u256_word(0),
    }
}

/// The payload of a dependency for `putInbox`; empty when absent.
pub open spec fn put_inbox_data(dep: CrossRollupDependency) -> Seq<u8> {
    match dep.data {
        Some(d) => d@,
        None => Seq::empty(),
    }
}

/// Encodes the `putInbox` calldata that delivers a dependency (without
/// signing): its source chain, sender, receiver, session id (zero when
/// absent), label and data (empty when absent).
pub fn encode_put_inbox_calldata(dep: &CrossRollupDependency) -> (r: Result<Vec<u8>, MailboxError>)
    ensures
        r matches Ok(v) && v@ == spec_put_inbox_calldata(
            dep.source_chain_id.0,
            dep.sender@,
            dep.receiver@,
            put_inbox_session(*dep),
            dep.label@,
            put_inbox_data(*dep),
        ),
{
    let zero: U256 = [0u8; 32];
    proof {
        assert(zero@ =~= u256_word(0)) by {
            reveal_with_fuel(crate::storage::be_bytes, 33);
        }
    }
    let session_id = match dep.session_id {
        Some(s) => s,
        None => zero,
    };
    let empty: Vec<u8> = Vec::new();
    let data = match &dep.data {
        Some(d) => d.as_slice(),
        None => empty.as_slice(),
    };
    encode_put_inbox(dep.source_chain_id.0, dep.sender, dep.receiver, session_id, dep.label.as_slice(), data)
}

} // verus!
