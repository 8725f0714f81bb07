//! Delivery of fulfilled dependencies through `putInbox` transactions: the
//! unsigned transaction each dependency needs, the run of nonces a batch
//! takes, the coordinator's signing key, and the signed transactions.

use alloy::consensus::SignableTransaction;
use alloy::network::eip2718::Encodable2718;
use alloy::network::TxSignerSync;
use alloy::signers::local::PrivateKeySigner;
use vstd::prelude::*;

use crate::abi::{encode_put_inbox_calldata, put_inbox_data, put_inbox_session, spec_put_inbox_calldata};
use crate::codec::{all_hex, hex_bytes};
use crate::coordinator::{DefaultCoordinator, XtBuilderCommand};
use crate::error::{join2, CoordinatorError};
use crate::mailbox::be_value;
use crate::nonce::{abort_rel, reserve_rel, NonceView};
use crate::overrides::{sender_nonce_from_overrides, spec_override_nonce, StateOverride};
use crate::poll::{build_transaction_payloads, hold_response, payloads_of, BuilderPollResponse, DeliverableXt};
use crate::parser::{parse_address, spec_address_error, spec_parse_address};
use crate::mailbox::MailboxError;
use crate::nonce::sat_add;
use crate::types::{Address, ChainId, CrossRollupDependency};
use crate::xt::bytes_view;

verus! {

broadcast use vstd::seq::group_seq_axioms;

/// Gas limit of a `putInbox` transaction.
pub const PUT_INBOX_GAS_LIMIT: u64 = 500_000;

/// Priority fee per gas of a `putInbox` transaction, in wei.
pub const PUT_INBOX_MAX_PRIORITY_FEE_PER_GAS: u128 = 1_000_000_000;

/// Maximum fee per gas of a `putInbox` transaction, in wei.
pub const PUT_INBOX_MAX_FEE_PER_GAS: u128 = 20_000_000_000;

/// Where `putInbox` transactions go and who sends them.
#[derive(Debug, Clone, Copy)]
pub struct PutInboxTarget {
    pub chain_id: ChainId,
    pub mailbox_address: Address,
    pub signer_address: Address,
}

/// An unsigned EIP-1559 `putInbox` transaction.
#[derive(Debug)]
pub struct PutInboxTx {
    pub from: Address,
    pub to: Address,
    pub chain_id: u64,
    pub nonce: u64,
    pub gas_limit: u64,
    pub max_priority_fee_per_gas: u128,
    pub max_fee_per_gas: u128,
    pub input: Vec<u8>,
}

/// The unsigned transaction that delivers `dep` with nonce `nonce`: from the
/// signer to the mailbox on the target chain, with the fixed gas settings and
/// the `putInbox` calldata of the dependency.
pub fn put_inbox_tx(target: &PutInboxTarget, dep: &CrossRollupDependency, nonce: u64) -> (r: Result<
    PutInboxTx,
    CoordinatorError,
>)
    ensures
        r matches Ok(tx) && {
            &&& tx.from == target.signer_address
            &&& tx.to == target.mailbox_address
            &&& tx.chain_id == target.chain_id.0
            &&& tx.nonce == nonce
            &&& tx.gas_limit == PUT_INBOX_GAS_LIMIT
            &&& tx.max_priority_fee_per_gas == PUT_INBOX_MAX_PRIORITY_FEE_PER_GAS
            &&& tx.max_fee_per_gas == PUT_INBOX_MAX_FEE_PER_GAS
            &&& tx.input@ == spec_put_inbox_calldata(
                dep.source_chain_id.0,
                dep.sender@,
                dep.receiver@,
                put_inbox_session(*dep),
                dep.label@,
                put_inbox_data(*dep),
            )
        },
{
    let input = match encode_put_inbox_calldata(dep) {
        Ok(c) => c,
        Err(e) => {
            let mut m = String::from_str("encode putInbox calldata: ");
            m.append(e.message().as_str());
            return Err(CoordinatorError::Mailbox(m));
        },
    };
    Ok(
        PutInboxTx {
            from: target.signer_address,
            to: target.mailbox_address,
            chain_id: target.chain_id.0,
            nonce,
            gas_limit: PUT_INBOX_GAS_LIMIT,
            max_priority_fee_per_gas: PUT_INBOX_MAX_PRIORITY_FEE_PER_GAS,
            max_fee_per_gas: PUT_INBOX_MAX_FEE_PER_GAS,
            input,
        },
    )
}

/// The nonces of `count` transactions sent from `start`: each one more than
/// the previous, saturating at `u64::MAX`.
pub open spec fn nonce_run(start: u64, count: nat) -> Seq<u64> {
    Seq::new(count, |k: int| sat_add(start, k as u64))
}

/// The nonces of a batch of `count` transactions reserved from `start`.
pub fn put_inbox_nonces(start: u64, count: usize) -> (r: Vec<u64>)
    ensures
        r@ == nonce_run(start, count as nat),
{
    let mut out: Vec<u64> = Vec::new();
    let mut nonce = start;
    let mut k: usize = 0;
    while k < count
        invariant
            0 <= k <= count,
            nonce == sat_add(start, k as u64),
            out@ == nonce_run(start, k as nat),
        decreases count - k,
    {
        out.push(nonce);
        nonce = nonce.saturating_add(1);
        k = k + 1;
        assert(out@ =~= nonce_run(start, k as nat));
    }
    out
}

/// The signing key text with a `0x` prefix: unchanged when it has one.
pub open spec fn spec_prefixed_key(key: Seq<char>) -> Seq<char> {
    if key.len() >= 2 && key[0] == '0' && key[1] == 'x' {
        key
    } else {
        seq!['0', 'x'] + key
    }
}

/// Puts a `0x` prefix on a signing key that lacks one.
pub fn normalize_coordinator_key(key: &str) -> (r: String)
    ensures
        r@ == spec_prefixed_key(key@),
{
    let n = key.unicode_len();
    if n >= 2 && key.get_char(0) == '0' && key.get_char(1) == 'x' {
        return key.to_string();
    }
    let mut r = String::from_str("0x");
    r.append(key);
    proof {
        reveal_strlit("0x");
        assert(r@ =~= seq!['0', 'x'] + key@);
    }
    r
}

// ---------------------------------------------------------------------------
// The signing key and signed transactions.
// ---------------------------------------------------------------------------

/// Order of the secp256k1 group.
pub open spec fn secp256k1_order() -> nat {
    0xFFFFFFFFFFFFFFFFFFFFFFFFFFFFFFFEBAAEDCE6AF48A03BBFD25E8CD0364141nat
}

/// A secp256k1 secret key: 32 big-endian bytes of a scalar in `1..n`.
pub open spec fn valid_secret(key: Seq<u8>) -> bool {
    key.len() == 32 && 0 < be_value(key) < secp256k1_order()
}

/// `PrivateKeySigner::from_str`: an optional `0x` or `0X` prefix, then exactly
/// 64 hex digits (either case) spelling a valid secret key.
pub open spec fn spec_parse_private_key(s: Seq<char>) -> Option<Seq<u8>> {
    let t = if s.len() >= 2 && s[0] == '0' && (s[1] == 'x' || s[1] == 'X') {
        s.skip(2)
    } else {
        s
    };
    if t.len() == 64 && all_hex(t) && valid_secret(hex_bytes(t)) {
        Some(hex_bytes(t))
    } else {
        None
    }
}

/// The name for the message text of the error `PrivateKeySigner::from_str`
/// reports on `s`.
pub uninterp spec fn spec_private_key_error(s: Seq<char>) -> Seq<char>;

/// The name for the Ethereum address of the secret key `key`.
pub uninterp spec fn spec_key_address(key: Seq<u8>) -> Seq<u8>;

/// The name for what signing an EIP-1559 transaction with the given fields
/// (no value, empty access list) under `key` gives: the EIP-2718 encoding of
/// the signed transaction, or the text of the signing error.
pub uninterp spec fn spec_signed_eip1559(
    key: Seq<u8>,
    chain_id: u64,
    nonce: u64,
    to: Seq<u8>,
    gas_limit: u64,
    max_priority_fee_per_gas: u128,
    max_fee_per_gas: u128,
    input: Seq<u8>,
) -> Result<Seq<u8>, Seq<char>>;

/// `PrivateKeySigner::from_str`, kept as the 32 bytes of the secret scalar.
#[verifier::external_body]
fn parse_private_key(text: &str) -> (r: Result<[u8; 32], String>)
    ensures
        r is Ok <==> spec_parse_private_key(text@) is Some,
        r matches Ok(k) ==> k@ == spec_parse_private_key(text@).unwrap(),
        r matches Err(e) ==> e@ == spec_private_key_error(text@),
{
    match text.parse::<PrivateKeySigner>() {
        Ok(s) => Ok(s.to_bytes().0),
        Err(e) => Err(e.to_string()),
    }
}

/// `LocalSigner::address` of the signer `PrivateKeySigner::from_slice` makes
/// of `key`; that accepts exactly the valid secret keys.
#[verifier::external_body]
fn key_address(key: &[u8; 32]) -> (r: Option<Address>)
    ensures
        r is Some <==> valid_secret(key@),
        r matches Some(a) ==> a@ == spec_key_address(key@),
{
    match PrivateKeySigner::from_slice(key) {
        Ok(s) => Some(s.address().into_array()),
        Err(_) => None,
    }
}

/// `TxSignerSync::sign_transaction_sync` of the signer made of `key`, on the
/// EIP-1559 transaction `tx`; the signed transaction comes back EIP-2718
/// encoded.
#[verifier::external_body]
fn sign_eip1559(key: &[u8; 32], tx: &PutInboxTx) -> (r: Result<Vec<u8>, String>)
    ensures
        r matches Ok(b) ==> spec_signed_eip1559(key@, tx.chain_id, tx.nonce, tx.to@, tx.gas_limit,
            tx.max_priority_fee_per_gas, tx.max_fee_per_gas, tx.input@) matches Ok(s) && s == b@,
        r matches Err(e) ==> spec_signed_eip1559(key@, tx.chain_id, tx.nonce, tx.to@, tx.gas_limit,
            tx.max_priority_fee_per_gas, tx.max_fee_per_gas, tx.input@) matches Err(t) && t == e@,
{
    let signer = match PrivateKeySigner::from_slice(key) {
        Ok(s) => s,
        Err(e) => return Err(e.to_string()),
    };
    let mut unsigned = alloy::consensus::TxEip1559 {
        chain_id: tx.chain_id, nonce: tx.nonce, gas_limit: tx.gas_limit, to: alloy::primitives::TxKind::Call(tx.to.into()),
        max_priority_fee_per_gas: tx.max_priority_fee_per_gas, max_fee_per_gas: tx.max_fee_per_gas,
        input: tx.input.clone().into(), ..Default::default()
    };
    match signer.sign_transaction_sync(&mut unsigned) {
        Ok(sig) => Ok(alloy::consensus::TxEnvelope::from(unsigned.into_signed(sig)).encoded_2718()),
        Err(e) => Err(e.to_string()),
    }
}

// ---------------------------------------------------------------------------
// The transaction builder.
// ---------------------------------------------------------------------------

/// The `putInbox` transaction delivering `dep` with nonce `nonce` toward
/// `target`, signed with `key`: its EIP-2718 encoding, or the signing error.
pub open spec fn spec_signed_put_inbox(
    key: Seq<u8>,
    target: PutInboxTarget,
    dep: CrossRollupDependency,
    nonce: u64,
) -> Result<Seq<u8>, Seq<char>> {
    spec_signed_eip1559(
        key,
        target.chain_id.0,
        nonce,
        target.mailbox_address@,
        PUT_INBOX_GAS_LIMIT,
        PUT_INBOX_MAX_PRIORITY_FEE_PER_GAS,
        PUT_INBOX_MAX_FEE_PER_GAS,
        spec_put_inbox_calldata(
            dep.source_chain_id.0,
            dep.sender@,
            dep.receiver@,
            put_inbox_session(dep),
            dep.label@,
            put_inbox_data(dep),
        ),
    )
}

/// The signing result for each of `deps` in order, the `k`-th at nonce
/// `start + k` (saturating).
pub open spec fn signed_batch(
    key: Seq<u8>,
    target: PutInboxTarget,
    deps: Seq<CrossRollupDependency>,
    start: u64,
) -> Seq<Result<Seq<u8>, Seq<char>>> {
    Seq::new(
        deps.len(),
        |k: int| spec_signed_put_inbox(key, target, deps[k], sat_add(start, k as u64)),
    )
}

/// Every signing result is a transaction.
pub open spec fn all_signed(rs: Seq<Result<Seq<u8>, Seq<char>>>) -> bool {
    forall|k: int| 0 <= k < rs.len() ==> (#[trigger] rs[k]) is Ok
}

/// The transactions of the signing results.
pub open spec fn signed_bytes(rs: Seq<Result<Seq<u8>, Seq<char>>>) -> Seq<Seq<u8>> {
    rs.map_values(
        |x: Result<Seq<u8>, Seq<char>>|
            match x {
                Ok(b) => b,
                Err(_) => Seq::empty(),
            },
    )
}

/// `j` is the first failed signing result.
pub open spec fn first_failure(rs: Seq<Result<Seq<u8>, Seq<char>>>, j: int) -> bool {
    &&& 0 <= j < rs.len()
    &&& rs[j] is Err
    &&& forall|i: int| 0 <= i < j ==> (#[trigger] rs[i]) is Ok
}

/// The error text of the first failed signing result.
pub open spec fn first_error_text(rs: Seq<Result<Seq<u8>, Seq<char>>>) -> Seq<char> {
    let j = choose|j: int| first_failure(rs, j);
    match rs[j] {
        Err(t) => t,
        Ok(_) => Seq::empty(),
    }
}

proof fn lemma_first_failure(rs: Seq<Result<Seq<u8>, Seq<char>>>, j: int)
    requires
        first_failure(rs, j),
    ensures
        rs[j] matches Err(t) && first_error_text(rs) == t,
{
    let c = choose|c: int| first_failure(rs, c);
    assert(first_failure(rs, c));
    if c < j {
        assert(rs[c] is Ok);
    } else if j < c {
        assert(rs[j] is Ok);
    }
}

/// Builds signed `putInbox` transactions with the coordinator's key.
pub struct PutInboxTxBuilder {
    target: PutInboxTarget,
    key: [u8; 32],
}

impl PutInboxTxBuilder {
    #[verifier::type_invariant]
    closed spec fn inv(self) -> bool {
        &&& valid_secret(self.key@)
        &&& self.target.signer_address@ == spec_key_address(self.key@)
    }

    /// The secret key the transactions are signed with.
    pub closed spec fn secret(self) -> Seq<u8> {
        self.key@
    }

    /// The chain, mailbox and signer of the transactions.
    pub closed spec fn target_view(self) -> PutInboxTarget {
        self.target
    }

    /// A builder for `putInbox` transactions to the mailbox at
    /// `mailbox_address` on `chain_id`, signed with `coordinator_key` (hex,
    /// with or without `0x`). The signer's address is derived from the key.
    pub fn new(chain_id: ChainId, mailbox_address: &str, coordinator_key: &str) -> (r: Result<
        Self,
        CoordinatorError,
    >)
        ensures
            spec_parse_address(mailbox_address@) is None ==> (r matches Err(
                CoordinatorError::Other(m),
            ) && m@ == "invalid mailbox address: "@ + spec_address_error(mailbox_address@)),
            spec_parse_address(mailbox_address@) is Some && spec_parse_private_key(
                spec_prefixed_key(coordinator_key@),
            ) is None ==> (r matches Err(CoordinatorError::Other(m)) && m@
                == "invalid coordinator key: "@ + spec_private_key_error(
                spec_prefixed_key(coordinator_key@),
            )),
            spec_parse_address(mailbox_address@) is Some && spec_parse_private_key(
                spec_prefixed_key(coordinator_key@),
            ) is Some ==> (r matches Ok(b) && b.secret() == spec_parse_private_key(
                spec_prefixed_key(coordinator_key@),
            ).unwrap() && b.target_view().chain_id == chain_id
                && b.target_view().mailbox_address@ == spec_parse_address(
                mailbox_address@,
            ).unwrap() && b.target_view().signer_address@ == spec_key_address(b.secret())),
    {
        let mailbox = match parse_address(mailbox_address) {
            Ok(a) => a,
            Err(e) => {
                return Err(CoordinatorError::Other(join2("invalid mailbox address: ", e.as_str())));
            },
        };
        let key_text = normalize_coordinator_key(coordinator_key);
        let key = match parse_private_key(key_text.as_str()) {
            Ok(k) => k,
            Err(e) => {
                return Err(CoordinatorError::Other(join2("invalid coordinator key: ", e.as_str())));
            },
        };
        let signer_address = key_address(&key).unwrap();
        Ok(
            PutInboxTxBuilder {
                target: PutInboxTarget { chain_id, mailbox_address: mailbox, signer_address },
                key,
            },
        )
    }

    /// The address the transactions are sent from.
    pub fn signer_address(&self) -> (a: Address)
        ensures
            a == self.target_view().signer_address,
            a@ == spec_key_address(self.secret()),
    {
        proof {
            use_type_invariant(self);
        }
        self.target.signer_address
    }

    /// The signed `putInbox` transaction delivering `dep` with nonce `nonce`.
    pub fn build_put_inbox_tx_with_nonce(&self, dep: &CrossRollupDependency, nonce: u64) -> (r:
        Result<Vec<u8>, CoordinatorError>)
        ensures
            spec_signed_put_inbox(self.secret(), self.target_view(), *dep, nonce) matches Ok(b)
                ==> (r matches Ok(v) && v@ == b),
            spec_signed_put_inbox(self.secret(), self.target_view(), *dep, nonce) matches Err(t)
                ==> (r matches Err(CoordinatorError::Other(m)) && m@ == "build signed putInbox tx: "@
                + t),
    {
        let tx = match put_inbox_tx(&self.target, dep, nonce) {
            Ok(tx) => tx,
            Err(e) => {
                return Err(e);
            },
        };
        match sign_eip1559(&self.key, &tx) {
            Ok(b) => Ok(b),
            Err(e) => Err(CoordinatorError::Other(join2("build signed putInbox tx: ", e.as_str()))),
        }
    }

    /// Signs a `putInbox` transaction for each of `deps` in order, the `k`-th
    /// with nonce `start + k` (saturating), stopping at the first failure.
    fn sign_batch(&self, deps: &Vec<CrossRollupDependency>, start: u64) -> (r: Result<
        Vec<Vec<u8>>,
        CoordinatorError,
    >)
        ensures
            all_signed(signed_batch(self.secret(), self.target_view(), deps@, start)) ==> (r matches Ok(
                v,
            ) && bytes_view(v@) == signed_bytes(
                signed_batch(self.secret(), self.target_view(), deps@, start),
            )),
            !all_signed(signed_batch(self.secret(), self.target_view(), deps@, start)) ==> (r matches Err(
                CoordinatorError::Other(m),
            ) && m@ == "build signed putInbox tx: "@ + first_error_text(
                signed_batch(self.secret(), self.target_view(), deps@, start),
            )),
    {
        let ghost rs = signed_batch(self.secret(), self.target_view(), deps@, start);
        let mut out: Vec<Vec<u8>> = Vec::new();
        let mut nonce = start;
        let mut k: usize = 0;
        while k < deps.len()
            invariant
                0 <= k <= deps@.len(),
                rs == signed_batch(self.secret(), self.target_view(), deps@, start),
                nonce == sat_add(start, k as u64),
                forall|i: int| 0 <= i < k ==> (#[trigger] rs[i]) is Ok,
                bytes_view(out@) == signed_bytes(rs.take(k as int)),
            decreases deps@.len() - k,
        {
            let signed = self.build_put_inbox_tx_with_nonce(&deps[k], nonce);
            match signed {
                Ok(tx) => {
                    proof {
                        assert(rs[k as int] matches Ok(b) && b == tx@);
                        assert(signed_bytes(rs.take(k + 1)) =~= signed_bytes(rs.take(k as int)).push(tx@));
                    }
                    out.push(tx);
                    proof {
                        assert(bytes_view(out@) =~= signed_bytes(rs.take(k + 1)));
                    }
                },
                Err(e) => {
                    proof {
                        assert(first_failure(rs, k as int));
                        lemma_first_failure(rs, k as int);
                    }
                    return Err(e);
                },
            }
            nonce = nonce.saturating_add(1);
            k = k + 1;
        }
        proof {
            assert(rs.take(k as int) =~= rs);
        }
        Ok(out)
    }
}

/// One XT's `putInbox` step with key `key` toward `target`: a run of nonces
/// is reserved for `id` from state `m0` (see [`reserve_rel`]); when every
/// dependency signs, the state is `m1` and `r` holds the transactions;
/// otherwise the reservation is released (see [`abort_rel`]) and `r` holds
/// the first signing error.
pub open spec fn put_inbox_step(
    key: Seq<u8>,
    target: PutInboxTarget,
    id: Seq<char>,
    deps: Seq<CrossRollupDependency>,
    canonical: u64,
    m0: NonceView,
    m1: NonceView,
    r: Result<Vec<Vec<u8>>, CoordinatorError>,
) -> bool {
    exists|start: u64, mid: NonceView|
        #[trigger] reserve_rel(m0, mid, id, deps.len(), canonical, start) && {
            let rs = signed_batch(key, target, deps, start);
            if all_signed(rs) {
                &&& m1 == mid
                &&& r matches Ok(v) && bytes_view(v@) == signed_bytes(rs)
            } else {
                &&& abort_rel(mid, m1, id)
                &&& r matches Err(CoordinatorError::Other(m)) && m@ == "build signed putInbox tx: "@
                    + first_error_text(rs)
            }
        }
}

/// What building the `putInbox` transactions of `deps` for XT `id` with
/// `builder` gives: nothing for no dependencies, `PutInboxNotConfigured`
/// without a builder, else a [`put_inbox_step`]. The nonce state goes from
/// `m0` to `m1`.
pub open spec fn put_inbox_result(
    builder: Option<PutInboxTxBuilder>,
    id: Seq<char>,
    deps: Seq<CrossRollupDependency>,
    canonical: u64,
    m0: NonceView,
    m1: NonceView,
    r: Result<Vec<Vec<u8>>, CoordinatorError>,
) -> bool {
    if deps.len() == 0 {
        &&& r matches Ok(v) && v@.len() == 0
        &&& m1 == m0
    } else {
        match builder {
            None => {
                &&& r == Err::<Vec<Vec<u8>>, CoordinatorError>(
                    CoordinatorError::PutInboxNotConfigured,
                )
                &&& m1 == m0
            },
            Some(b) => put_inbox_step(b.secret(), b.target_view(), id, deps, canonical, m0, m1, r),
        }
    }
}

/// What the caller does with the local builder after a lifecycle command.
#[derive(Debug)]
pub enum BuilderAction {
    /// Nothing is sent to the builder.
    Nothing,
    /// Release the held XT together with its `putInbox` transactions. If the
    /// builder rejects the release, `release_aborted(instance_id)` recycles the
    /// reserved nonces.
    Release { instance_id: String, put_inbox_transactions: Vec<Vec<u8>> },
    /// Ask the builder to drop the held XT; once it has,
    /// `release_aborted(instance_id)` recycles the reserved nonces.
    Abort { instance_id: String },
}

/// What applying `command` gives, with the builder client connected or not:
/// without one, a release does nothing and an abort recycles the XT's
/// `putInbox` nonces at once; with one, a release builds the XT's `putInbox`
/// transactions (see [`put_inbox_result`]) and an abort is handed to the
/// caller. The nonce state goes from `m0` to `m1`.
pub open spec fn builder_command_result(
    builder: Option<PutInboxTxBuilder>,
    command: XtBuilderCommand,
    connected: bool,
    canonical: u64,
    m0: NonceView,
    m1: NonceView,
    r: Result<BuilderAction, CoordinatorError>,
) -> bool {
    match command {
        XtBuilderCommand::Release { instance_id, dependencies } => if !connected {
            &&& r matches Ok(BuilderAction::Nothing)
            &&& m1 == m0
        } else {
            exists|t: Result<Vec<Vec<u8>>, CoordinatorError>|
                #[trigger] put_inbox_result(
                    builder,
                    instance_id@,
                    dependencies@,
                    canonical,
                    m0,
                    m1,
                    t,
                ) && match t {
                    Ok(v) => r matches Ok(BuilderAction::Release { instance_id: i, put_inbox_transactions: w })
                        && i@ == instance_id@ && w == v,
                    Err(e) => r == Err::<BuilderAction, CoordinatorError>(e),
                }
        },
        XtBuilderCommand::Abort { instance_id } => if connected {
            &&& r matches Ok(BuilderAction::Abort { instance_id: i }) && i@ == instance_id@
            &&& m1 == m0
        } else {
            &&& r matches Ok(BuilderAction::Nothing)
            &&& abort_rel(m0, m1, instance_id@)
        },
    }
}

impl DefaultCoordinator {
    /// Installs the builder of signed `putInbox` transactions.
    pub fn set_put_inbox_builder(&mut self, builder: PutInboxTxBuilder)
        ensures
            final(self).put_inbox_builder == Some(builder),
            final(self).chain_id == old(self).chain_id,
            final(self).circ_timeout_ms == old(self).circ_timeout_ms,
            final(self).state == old(self).state,
            final(self).nonce_manager@ == old(self).nonce_manager@,
    {
        self.put_inbox_builder = Some(builder);
    }

    /// The signed `putInbox` transactions that deliver `dependencies` for the
    /// XT `instance_id`. A run of nonces is reserved for the XT (`canonical` is
    /// the signer's pending chain nonce) and the dependencies are signed in
    /// order with consecutive nonces. When one fails to sign, the reservation
    /// is released so its nonces can be reused, and the error is returned.
    pub fn build_put_inbox_transactions(
        &mut self,
        instance_id: &str,
        dependencies: &Vec<CrossRollupDependency>,
        canonical: u64,
    ) -> (r: Result<Vec<Vec<u8>>, CoordinatorError>)
        ensures
            final(self).chain_id == old(self).chain_id,
            final(self).circ_timeout_ms == old(self).circ_timeout_ms,
            final(self).state == old(self).state,
            final(self).put_inbox_builder == old(self).put_inbox_builder,
            put_inbox_result(
                old(self).put_inbox_builder,
                instance_id@,
                dependencies@,
                canonical,
                old(self).nonce_manager@,
                final(self).nonce_manager@,
                r,
            ),
    {
        if dependencies.len() == 0 {
            return Ok(Vec::new());
        }
        if self.put_inbox_builder.is_none() {
            return Err(CoordinatorError::PutInboxNotConfigured);
        }
        let ghost m0 = self.nonce_manager@;
        let start = self.nonce_manager.reserve(instance_id, dependencies.len(), canonical);
        let ghost mid = self.nonce_manager@;
        assert(reserve_rel(m0, mid, instance_id@, dependencies@.len(), canonical, start));
        let signed = match &self.put_inbox_builder {
            Some(b) => b.sign_batch(dependencies, start),
            None => {
                return Err(CoordinatorError::PutInboxNotConfigured);
            },
        };
        match signed {
            Ok(v) => Ok(v),
            Err(e) => {
                self.nonce_manager.release_aborted(instance_id);
                assert(abort_rel(mid, self.nonce_manager@, instance_id@));
                Err(e)
            },
        }
    }

    /// Applies a lifecycle command for the local builder. `builder_connected`
    /// says whether a builder client is wired; `canonical` is the signer's
    /// pending chain nonce, for the `putInbox` transactions of a release.
    pub fn apply_builder_command(
        &mut self,
        command: XtBuilderCommand,
        builder_connected: bool,
        canonical: u64,
    ) -> (r: Result<BuilderAction, CoordinatorError>)
        ensures
            final(self).chain_id == old(self).chain_id,
            final(self).circ_timeout_ms == old(self).circ_timeout_ms,
            final(self).state == old(self).state,
            final(self).put_inbox_builder == old(self).put_inbox_builder,
            builder_command_result(
                old(self).put_inbox_builder,
                command,
                builder_connected,
                canonical,
                old(self).nonce_manager@,
                final(self).nonce_manager@,
                r,
            ),
    {
        match command {
            XtBuilderCommand::Release { instance_id, dependencies } => {
                if !builder_connected {
                    return Ok(BuilderAction::Nothing);
                }
                let built = self.build_put_inbox_transactions(instance_id.as_str(), &dependencies, canonical);
                match built {
                    Ok(v) => Ok(BuilderAction::Release { instance_id, put_inbox_transactions: v }),
                    Err(e) => Err(e),
                }
            },
            XtBuilderCommand::Abort { instance_id } => {
                if builder_connected {
                    return Ok(BuilderAction::Abort { instance_id });
                }
                self.nonce_manager.release_aborted(instance_id.as_str());
                Ok(BuilderAction::Nothing)
            },
        }
    }
}

// ---------------------------------------------------------------------------
// The deliverables of a builder poll.
// ---------------------------------------------------------------------------

/// Some deliverable has dependencies to deliver.
pub open spec fn any_dependencies(d: Seq<DeliverableXt>) -> bool {
    exists|i: int| 0 <= i < d.len() && (#[trigger] d[i]).deps@.len() > 0
}

/// The nonce the signer's `putInbox` transactions start from: the one the
/// poll's state overrides fix for `signer`, else `pending_nonce`.
pub open spec fn put_inbox_base(
    signer: Address,
    overrides: Option<StateOverride>,
    pending_nonce: Option<u64>,
) -> Option<u64> {
    match overrides {
        Some(o) => match spec_override_nonce(o.view_map(), signer) {
            Some(n) => Some(n),
            None => pending_nonce,
        },
        None => pending_nonce,
    }
}

/// One deliverable's step: an XT with dependencies takes a
/// [`put_inbox_step`] from `m0` to `m1` with outcome `out`; one without keeps
/// the state and adds nothing.
pub open spec fn delivery_step(
    key: Seq<u8>,
    target: PutInboxTarget,
    canonical: u64,
    x: DeliverableXt,
    m0: NonceView,
    m1: NonceView,
    out: Result<Vec<Vec<u8>>, CoordinatorError>,
) -> bool {
    if x.deps@.len() == 0 {
        &&& m1 == m0
        &&& out matches Ok(v) && v@.len() == 0
    } else {
        put_inbox_step(key, target, x.id@, x.deps@, canonical, m0, m1, out)
    }
}

/// The steps of the first `outs.len()` deliverables of `d`, the `i`-th from
/// nonce state `ms[i]` to `ms[i + 1]`; every step but the last succeeded.
pub open spec fn delivery_trail(
    key: Seq<u8>,
    target: PutInboxTarget,
    canonical: u64,
    d: Seq<DeliverableXt>,
    ms: Seq<NonceView>,
    outs: Seq<Result<Vec<Vec<u8>>, CoordinatorError>>,
) -> bool {
    &&& ms.len() == outs.len() + 1
    &&& outs.len() <= d.len()
    &&& forall|i: int|
        0 <= i < outs.len() ==> delivery_step(key, target, canonical, #[trigger] d[i], ms[i], ms[i + 1], outs[i])
    &&& forall|i: int| 0 <= i < outs.len() - 1 ==> (#[trigger] outs[i]) is Ok
}

/// `x1` is `x0` with the transactions of `out` appended to its `putInbox` list.
pub open spec fn delivered_with(
    x0: DeliverableXt,
    x1: DeliverableXt,
    out: Result<Vec<Vec<u8>>, CoordinatorError>,
) -> bool {
    &&& x1.id == x0.id
    &&& x1.raw_txs == x0.raw_txs
    &&& x1.deps == x0.deps
    &&& out matches Ok(v) && bytes_view(x1.put_inbox_txs@) == bytes_view(x0.put_inbox_txs@) + bytes_view(v@)
}

/// What signing the deliverables `d0` gives: steps from nonce state `m0` to
/// `m1` (see [`delivery_trail`]); on success every step succeeded and each
/// deliverable has its transactions appended, otherwise the last step's error
/// is returned.
pub open spec fn delivery_outcome(
    key: Seq<u8>,
    target: PutInboxTarget,
    canonical: u64,
    d0: Seq<DeliverableXt>,
    m0: NonceView,
    m1: NonceView,
    r: Result<Vec<DeliverableXt>, CoordinatorError>,
) -> bool {
    exists|ms: Seq<NonceView>, outs: Seq<Result<Vec<Vec<u8>>, CoordinatorError>>|
        #[trigger] delivery_trail(key, target, canonical, d0, ms, outs) && ms[0] == m0 && ms.last()
            == m1 && delivery_result(d0, outs, r)
}

/// The result matching the step outcomes `outs` over the deliverables `d0`.
pub open spec fn delivery_result(
    d0: Seq<DeliverableXt>,
    outs: Seq<Result<Vec<Vec<u8>>, CoordinatorError>>,
    r: Result<Vec<DeliverableXt>, CoordinatorError>,
) -> bool {
    match r {
        Ok(d1) => {
            &&& outs.len() == d0.len()
            &&& forall|i: int| 0 <= i < outs.len() ==> (#[trigger] outs[i]) is Ok
            &&& d1@.len() == d0.len()
            &&& forall|i: int|
                0 <= i < d1@.len() ==> delivered_with(d0[i], #[trigger] d1@[i], outs[i])
        },
        Err(e) => outs.len() > 0 && outs.last() == Err::<Vec<Vec<u8>>, CoordinatorError>(e),
    }
}

/// What signing the deliverables `d0` of a poll with `builder` gives: with
/// no dependencies at all, the deliverables unchanged; with no builder,
/// `PutInboxNotConfigured`; with no starting nonce for the signer (see
/// [`put_inbox_base`]), a `Nonce` error; else the [`delivery_outcome`] from
/// that nonce. The nonce state goes from `m0` to `m1`.
pub open spec fn deliverables_signed(
    builder: Option<PutInboxTxBuilder>,
    d0: Seq<DeliverableXt>,
    overrides: Option<StateOverride>,
    pending_nonce: Option<u64>,
    m0: NonceView,
    m1: NonceView,
    r: Result<Vec<DeliverableXt>, CoordinatorError>,
) -> bool {
    if !any_dependencies(d0) {
        &&& r matches Ok(d1) && d1@ == d0
        &&& m1 == m0
    } else {
        match builder {
            None => {
                &&& r == Err::<Vec<DeliverableXt>, CoordinatorError>(
                    CoordinatorError::PutInboxNotConfigured,
                )
                &&& m1 == m0
            },
            Some(b) => match put_inbox_base(b.target_view().signer_address, overrides, pending_nonce) {
                None => {
                    &&& r matches Err(CoordinatorError::Nonce(m)) && m@ == "pending nonce unavailable"@
                    &&& m1 == m0
                },
                Some(base) => delivery_outcome(b.secret(), b.target_view(), base, d0, m0, m1, r),
            },
        }
    }
}

/// Whether some deliverable has dependencies.
fn has_dependencies(d: &Vec<DeliverableXt>) -> (b: bool)
    ensures
        b == any_dependencies(d@),
{
    let mut i: usize = 0;
    while i < d.len()
        invariant
            0 <= i <= d@.len(),
            forall|j: int| 0 <= j < i ==> (#[trigger] d@[j]).deps@.len() == 0,
        decreases d@.len() - i,
    {
        if d[i].deps.len() > 0 {
            return true;
        }
        i = i + 1;
    }
    false
}

impl DefaultCoordinator {
    /// Signs the `putInbox` transactions that must precede each deliverable of
    /// a builder poll and appends them to its list, XT by XT as
    /// [`DefaultCoordinator::build_put_inbox_transactions`] does, stopping at
    /// the first failure. The signer's starting nonce is the one
    /// `state_overrides` fix for it, else `pending_nonce` (the chain's pending
    /// nonce, when the caller could read it). Nothing is signed, and nothing is
    /// needed, when no deliverable has dependencies.
    pub fn build_deliverable_put_inbox(
        &mut self,
        deliverables: Vec<DeliverableXt>,
        state_overrides: &Option<StateOverride>,
        pending_nonce: Option<u64>,
    ) -> (r: Result<Vec<DeliverableXt>, CoordinatorError>)
        requires
            state_overrides matches Some(o) ==> o.wf(),
        ensures
            final(self).chain_id == old(self).chain_id,
            final(self).circ_timeout_ms == old(self).circ_timeout_ms,
            final(self).state == old(self).state,
            final(self).put_inbox_builder == old(self).put_inbox_builder,
            deliverables_signed(
                old(self).put_inbox_builder,
                deliverables@,
                *state_overrides,
                pending_nonce,
                old(self).nonce_manager@,
                final(self).nonce_manager@,
                r,
            ),
    {
        if !has_dependencies(&deliverables) {
            return Ok(deliverables);
        }
        let base = match &self.put_inbox_builder {
            None => {
                return Err(CoordinatorError::PutInboxNotConfigured);
            },
            Some(b) => {
                let signer = b.signer_address();
                match state_overrides {
                    Some(o) => match sender_nonce_from_overrides(o, &signer) {
                        Some(n) => Some(n),
                        None => pending_nonce,
                    },
                    None => pending_nonce,
                }
            },
        };
        let base = match base {
            Some(n) => n,
            None => {
                return Err(CoordinatorError::Nonce(String::from_str("pending nonce unavailable")));
            },
        };
        let ghost b = self.put_inbox_builder.unwrap();
        let ghost d0 = deliverables@;
        let ghost mut ms: Seq<NonceView> = seq![self.nonce_manager@];
        let ghost mut outs: Seq<Result<Vec<Vec<u8>>, CoordinatorError>> = Seq::empty();
        let mut rest = deliverables;
        let mut done: Vec<DeliverableXt> = Vec::new();
        let n = rest.len();
        let mut i: usize = 0;
        while i < n
            invariant
                0 <= i <= n,
                n == d0.len(),
                d0 == deliverables@,
                rest@ == d0.skip(i as int),
                self.put_inbox_builder == Some(b),
                old(self).put_inbox_builder == Some(b),
                any_dependencies(d0),
                put_inbox_base(b.target_view().signer_address, *state_overrides, pending_nonce)
                    == Some(base),
                self.chain_id == old(self).chain_id,
                self.circ_timeout_ms == old(self).circ_timeout_ms,
                self.state == old(self).state,
                delivery_trail(b.secret(), b.target_view(), base, d0, ms, outs),
                outs.len() == i,
                ms[0] == old(self).nonce_manager@,
                ms.last() == self.nonce_manager@,
                forall|j: int| 0 <= j < i ==> (#[trigger] outs[j]) is Ok,
                done@.len() == i,
                forall|j: int| 0 <= j < i ==> delivered_with(d0[j], #[trigger] done@[j], outs[j]),
            decreases n - i,
        {
            let mut x = rest.remove(0);
            let out = self.build_put_inbox_transactions(x.id.as_str(), &x.deps, base);
            proof {
                assert(x == d0[i as int]);
                let ms1 = ms.push(self.nonce_manager@);
                let outs1 = outs.push(out);
                assert(delivery_step(b.secret(), b.target_view(), base, d0[i as int], ms1[i as int], ms1[i + 1], outs1[i as int]));
                assert forall|j: int| 0 <= j < outs1.len() implies delivery_step(b.secret(), b.target_view(), base, #[trigger] d0[j], ms1[j], ms1[j + 1], outs1[j]) by {
                    if j < i {
                        assert(ms1[j] == ms[j]);
                        assert(ms1[j + 1] == ms[j + 1]);
                        assert(outs1[j] == outs[j]);
                    }
                }
                assert forall|j: int| 0 <= j < outs1.len() - 1 implies (#[trigger] outs1[j]) is Ok by {
                    assert(outs1[j] == outs[j]);
                }
                assert(delivery_trail(b.secret(), b.target_view(), base, d0, ms1, outs1));
                ms = ms1;
                outs = outs1;
            }
            match out {
                Ok(mut v) => {
                    let ghost old_txs = x.put_inbox_txs@;
                    let ghost vv = v@;
                    x.put_inbox_txs.append(&mut v);
                    proof {
                        assert(bytes_view(x.put_inbox_txs@) =~= bytes_view(old_txs) + bytes_view(vv));
                    }
                    done.push(x);
                },
                Err(e) => {
                    proof {
                        assert(outs.last() == Err::<Vec<Vec<u8>>, CoordinatorError>(e));
                        assert(delivery_result(d0, outs, Err(e)));
                    }
                    return Err(e);
                },
            }
            i = i + 1;
            proof {
                assert(rest@ =~= d0.skip(i as int));
            }
        }
        Ok(done)
    }
}

/// The answer to a poll delivering XTs, given the outcome `out` of signing
/// their `putInbox` transactions: the payloads on success; on failure the
/// builder holds, polls again after 50 ms and holds at most `max_hold_ms`.
pub open spec fn delivery_response(
    out: Result<Vec<DeliverableXt>, CoordinatorError>,
    max_hold_ms: u64,
    r: BuilderPollResponse,
) -> bool {
    match out {
        Ok(d1) => {
            &&& !r.hold
            &&& r.poll_after_ms is None
            &&& r.max_hold_ms is None
            &&& payloads_of(d1@, r.transactions@)
        },
        Err(_) => {
            &&& r.hold
            &&& r.transactions@.len() == 0
            &&& r.poll_after_ms == Some(50u64)
            &&& r.max_hold_ms == Some(max_hold_ms)
        },
    }
}

impl DefaultCoordinator {
    /// The answer to a poll that delivers `deliverables`: their `putInbox`
    /// transactions are signed (see
    /// [`DefaultCoordinator::build_deliverable_put_inbox`]) and the payloads
    /// returned; when that fails, the builder is told to hold for at most the
    /// CIRC timeout.
    pub fn deliver_poll_response(
        &mut self,
        deliverables: Vec<DeliverableXt>,
        state_overrides: &Option<StateOverride>,
        pending_nonce: Option<u64>,
    ) -> (r: BuilderPollResponse)
        requires
            state_overrides matches Some(o) ==> o.wf(),
        ensures
            final(self).chain_id == old(self).chain_id,
            final(self).circ_timeout_ms == old(self).circ_timeout_ms,
            final(self).state == old(self).state,
            final(self).put_inbox_builder == old(self).put_inbox_builder,
            exists|out: Result<Vec<DeliverableXt>, CoordinatorError>|
                #[trigger] deliverables_signed(
                    old(self).put_inbox_builder,
                    deliverables@,
                    *state_overrides,
                    pending_nonce,
                    old(self).nonce_manager@,
                    final(self).nonce_manager@,
                    out,
                ) && delivery_response(out, old(self).circ_timeout_ms, r),
    {
        let out = self.build_deliverable_put_inbox(deliverables, state_overrides, pending_nonce);
        match out {
            Ok(d1) => {
                let transactions = build_transaction_payloads(&d1);
                BuilderPollResponse { hold: false, transactions, poll_after_ms: None, max_hold_ms: None }
            },
            Err(_) => hold_response(self.circ_timeout_ms),
        }
    }
}

} // verus!
