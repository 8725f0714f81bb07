//! Pending cross-chain transaction (XT) state, its status, and its ordering.

use vstd::prelude::*;
use vstd::string::StringSliceAdditionalSpecFns;

use crate::keyed::{keyed_map, keys_distinct, lemma_keyed_absent, lemma_keyed_at};
use crate::types::{
    Address, ChainId, CrossRollupDependency, CrossRollupMessage, MailboxMessage, PeriodId,
    SequenceNumber,
};

verus! {

broadcast use vstd::seq::group_seq_axioms;

/// Externally visible status of an XT.
#[derive(Debug, Clone, Copy, PartialEq, Eq, Structural)]
pub enum XtStatus {
    Pending,
    Simulating,
    Simulated,
    WaitingCirc,
    Voted,
    Committed,
    Aborted,
}

/// The raw transactions an XT carries for one chain.
#[derive(Debug)]
pub struct ChainTxs {
    pub chain_id: ChainId,
    pub txs: Vec<Vec<u8>>,
}

/// A vote received from a peer chain.
#[derive(Debug, Clone, Copy, PartialEq, Eq, Structural)]
pub struct PeerVote {
    pub chain_id: ChainId,
    pub vote: bool,
}

/// The sender and nonce of the first transaction of a chain's slice.
#[derive(Debug, Clone, Copy)]
pub struct SenderNonce {
    pub chain_id: ChainId,
    pub sender: Address,
    pub nonce: u64,
}

/// A registered cross-chain transaction and everything learned about it.
///
/// Times are milliseconds on the caller's monotonic clock.
#[derive(Debug)]
pub struct PendingXt {
    /// Instance id as text (the key of the pending table).
    pub id: String,
    /// Raw instance id bytes as carried on the wire.
    pub instance_id: Vec<u8>,
    pub period_id: PeriodId,
    pub sequence_num: SequenceNumber,
    pub origin_chain: Option<ChainId>,
    pub origin_seq: SequenceNumber,
    /// Transactions per chain; chain ids are distinct.
    pub raw_txs: Vec<ChainTxs>,
    pub sender_nonces: Vec<SenderNonce>,
    /// Chains whose simulation has been claimed.
    pub locked_chains: Vec<ChainId>,
    pub created_at: u64,
    pub decision: Option<bool>,
    pub decided_at: Option<u64>,
    pub confirmed_at: Option<u64>,
    pub simulated_at: Option<u64>,
    pub vote_sent: bool,
    pub local_vote: Option<bool>,
    pub peer_votes: Vec<PeerVote>,
    pub dependencies: Vec<CrossRollupDependency>,
    pub fulfilled_deps: Vec<CrossRollupDependency>,
    pub outbound_messages: Vec<CrossRollupMessage>,
    pub pending_mailbox: Vec<MailboxMessage>,
    pub sent_mailbox: Vec<MailboxMessage>,
}

/// The key of a chain's transaction slice.
pub open spec fn chain_key(e: ChainTxs) -> ChainId {
    e.chain_id
}

/// The key of a peer vote.
pub open spec fn vote_key(e: PeerVote) -> ChainId {
    e.chain_id
}

/// Byte strings viewed by contents.
pub open spec fn bytes_view(s: Seq<Vec<u8>>) -> Seq<Seq<u8>> {
    s.map_values(|v: Vec<u8>| v@)
}

/// The transactions `xt` carries for chain `c`, if any.
pub open spec fn txs_for(xt: PendingXt, c: ChainId) -> Option<Seq<Seq<u8>>> {
    let m = keyed_map(xt.raw_txs@, |e: ChainTxs| chain_key(e));
    if m.dom().contains(c) {
        Some(bytes_view(m[c].txs@))
    } else {
        None
    }
}

/// `xt` carries at least one transaction for chain `c`.
pub open spec fn has_local_txs(xt: PendingXt, c: ChainId) -> bool {
    txs_for(xt, c) matches Some(t) && t.len() > 0
}

/// Structural well-formedness of an XT: its per-chain tables have distinct keys.
pub open spec fn xt_wf(xt: PendingXt) -> bool {
    &&& keys_distinct(xt.raw_txs@, |e: ChainTxs| chain_key(e))
    &&& keys_distinct(xt.peer_votes@, |e: PeerVote| vote_key(e))
}

/// The status of `xt`, derived from its lifecycle fields.
pub open spec fn spec_xt_status(xt: PendingXt) -> XtStatus {
    match xt.decision {
        Some(d) => if d {
            if xt.confirmed_at is Some {
                XtStatus::Committed
            } else {
                XtStatus::Voted
            }
        } else {
            XtStatus::Aborted
        },
        None => if xt.vote_sent {
            XtStatus::Voted
        } else if xt.simulated_at is Some {
            if xt.dependencies@.len() > 0 && xt.fulfilled_deps@.len() < xt.dependencies@.len() {
                XtStatus::WaitingCirc
            } else {
                XtStatus::Simulated
            }
        } else if xt.locked_chains@.len() > 0 {
            XtStatus::Simulating
        } else {
            XtStatus::Pending
        },
    }
}

/// Determines the current status of a pending XT.
pub fn determine_xt_status(xt: &PendingXt) -> (s: XtStatus)
    ensures
        s == spec_xt_status(*xt),
{
    if let Some(decision) = xt.decision {
        return if decision {
            if xt.confirmed_at.is_some() {
                XtStatus::Committed
            } else {
                XtStatus::Voted
            }
        } else {
            XtStatus::Aborted
        };
    }
    if xt.vote_sent {
        return XtStatus::Voted;
    }
    if xt.simulated_at.is_some() {
        if !xt.dependencies.is_empty() && xt.fulfilled_deps.len() < xt.dependencies.len() {
            return XtStatus::WaitingCirc;
        }
        return XtStatus::Simulated;
    }
    if !xt.locked_chains.is_empty() {
        return XtStatus::Simulating;
    }
    XtStatus::Pending
}

impl PendingXt {
    /// A freshly registered XT: no transactions, votes, or decision yet.
    pub fn new(id: String, instance_id: Vec<u8>, now: u64) -> (xt: PendingXt)
        ensures
            xt.id@ == id@,
            xt.instance_id@ == instance_id@,
            xt.period_id == PeriodId(0),
            xt.sequence_num == SequenceNumber(0),
            xt.origin_chain is None,
            xt.origin_seq == SequenceNumber(0),
            xt.raw_txs@.len() == 0,
            xt.sender_nonces@.len() == 0,
            xt.locked_chains@.len() == 0,
            xt.created_at == now,
            xt.decision is None,
            xt.decided_at is None,
            xt.confirmed_at is None,
            xt.simulated_at is None,
            !xt.vote_sent,
            xt.local_vote is None,
            xt.peer_votes@.len() == 0,
            xt.dependencies@.len() == 0,
            xt.fulfilled_deps@.len() == 0,
            xt.outbound_messages@.len() == 0,
            xt.pending_mailbox@.len() == 0,
            xt.sent_mailbox@.len() == 0,
            xt_wf(xt),
    {
        PendingXt {
            id,
            instance_id,
            period_id: PeriodId(0),
            sequence_num: SequenceNumber(0),
            origin_chain: None,
            origin_seq: SequenceNumber(0),
            raw_txs: Vec::new(),
            sender_nonces: Vec::new(),
            locked_chains: Vec::new(),
            created_at: now,
            decision: None,
            decided_at: None,
            confirmed_at: None,
            simulated_at: None,
            vote_sent: false,
            local_vote: None,
            peer_votes: Vec::new(),
            dependencies: Vec::new(),
            fulfilled_deps: Vec::new(),
            outbound_messages: Vec::new(),
            pending_mailbox: Vec::new(),
            sent_mailbox: Vec::new(),
        }
    }

    /// Records a commit/abort decision taken at `now`.
    pub fn record_decision(&mut self, decision: bool, now: u64)
        ensures
            *final(self) == (PendingXt { decision: Some(decision), decided_at: Some(now), ..*old(self) }),
    {
        self.decision = Some(decision);
        self.decided_at = Some(now);
    }
}

/// Index of chain `c` in a chain table.
pub fn find_chain(raw: &Vec<ChainTxs>, c: ChainId) -> (r: Option<usize>)
    ensures
        r matches Some(i) ==> i < raw@.len() && raw@[i as int].chain_id == c,
        r is None ==> forall|i: int| 0 <= i < raw@.len() ==> #[trigger] raw@[i].chain_id != c,
{
    let mut i: usize = 0;
    while i < raw.len()
        invariant
            0 <= i <= raw@.len(),
            forall|j: int| 0 <= j < i ==> #[trigger] raw@[j].chain_id != c,
        decreases raw@.len() - i,
    {
        if raw[i].chain_id == c {
            return Some(i);
        }
        i = i + 1;
    }
    None
}

/// Looks up the transactions an XT carries for chain `c`.
pub fn chain_txs<'a>(xt: &'a PendingXt, c: ChainId) -> (r: Option<&'a Vec<Vec<u8>>>)
    requires
        xt_wf(*xt),
    ensures
        r is Some <==> txs_for(*xt, c) is Some,
        r matches Some(t) ==> bytes_view(t@) == txs_for(*xt, c).unwrap(),
{
    match find_chain(&xt.raw_txs, c) {
        Some(i) => {
            proof {
                lemma_keyed_at(xt.raw_txs@, |e: ChainTxs| chain_key(e), i as int);
            }
            Some(&xt.raw_txs[i].txs)
        },
        None => {
            proof {
                lemma_keyed_absent(xt.raw_txs@, |e: ChainTxs| chain_key(e), c);
            }
            None
        },
    }
}

/// Whether `xt` carries at least one transaction for chain `c`.
pub fn carries_txs_for(xt: &PendingXt, c: ChainId) -> (b: bool)
    requires
        xt_wf(*xt),
    ensures
        b == has_local_txs(*xt, c),
{
    match chain_txs(xt, c) {
        Some(t) => t.len() > 0,
        None => false,
    }
}

/// Whether chain `c` appears in `chains`.
pub fn contains_chain(chains: &Vec<ChainId>, c: ChainId) -> (b: bool)
    ensures
        b == chains@.contains(c),
{
    let mut i: usize = 0;
    while i < chains.len()
        invariant
            0 <= i <= chains@.len(),
            forall|j: int| 0 <= j < i ==> chains@[j] != c,
        decreases chains@.len() - i,
    {
        if chains[i] == c {
            return true;
        }
        i = i + 1;
    }
    false
}

/// Adds chain `c` to a set of chains (no duplicates are added).
pub fn insert_chain(chains: &mut Vec<ChainId>, c: ChainId)
    ensures
        final(chains)@.to_set() == old(chains)@.to_set().insert(c),
        old(chains)@.contains(c) ==> final(chains)@ == old(chains)@,
        !old(chains)@.contains(c) ==> final(chains)@ == old(chains)@.push(c),
{
    if !contains_chain(chains, c) {
        chains.push(c);
        proof {
            assert(chains@.to_set() =~= old(chains)@.to_set().insert(c)) by {
                assert forall|x: ChainId| #[trigger] chains@.contains(x) implies old(chains)@.to_set().insert(c).contains(x) by {
                    let j = choose|j: int| 0 <= j < chains@.len() && chains@[j] == x;
                    if j < old(chains)@.len() {
                        assert(old(chains)@[j] == x);
                    }
                }
                assert forall|x: ChainId| #[trigger] old(chains)@.to_set().insert(c).contains(x) implies chains@.contains(x) by {
                    if x == c {
                        assert(chains@[chains@.len() - 1] == c);
                    } else {
                        let j = choose|j: int| 0 <= j < old(chains)@.len() && old(chains)@[j] == x;
                        assert(chains@[j] == x);
                    }
                }
            }
        }
    } else {
        proof {
            assert(chains@.to_set() =~= old(chains)@.to_set().insert(c));
        }
    }
}

// ---------------------------------------------------------------------------
// Canonical ordering of pending XTs: period, then sequence, then id.
// ---------------------------------------------------------------------------

/// Lexicographic "less than" on byte strings (the order of `str`).
pub open spec fn lex_less(a: Seq<u8>, b: Seq<u8>) -> bool
    decreases a.len(),
{
    if a.len() == 0 {
        b.len() > 0
    } else if b.len() == 0 {
        false
    } else if a[0] != b[0] {
        a[0] < b[0]
    } else {
        lex_less(a.drop_first(), b.drop_first())
    }
}

/// The ordering key of an XT: period, sequence, id bytes.
pub open spec fn spec_xt_less(
    a_id: Seq<u8>,
    a_period: u64,
    a_seq: u64,
    b_id: Seq<u8>,
    b_period: u64,
    b_seq: u64,
) -> bool {
    if a_period != b_period {
        a_period < b_period
    } else if a_seq != b_seq {
        a_seq < b_seq
    } else {
        lex_less(a_id, b_id)
    }
}

proof fn lemma_lex_skip(a: Seq<u8>, b: Seq<u8>, i: int)
    requires
        0 <= i <= a.len(),
        i <= b.len(),
        forall|j: int| 0 <= j < i ==> a[j] == b[j],
    ensures
        lex_less(a, b) == lex_less(a.skip(i), b.skip(i)),
    decreases i,
{
    if i > 0 {
        lemma_lex_skip(a.drop_first(), b.drop_first(), i - 1);
        assert(a.drop_first().skip(i - 1) =~= a.skip(i));
        assert(b.drop_first().skip(i - 1) =~= b.skip(i));
    } else {
        assert(a.skip(0) =~= a);
        assert(b.skip(0) =~= b);
    }
}

/// Byte-wise lexicographic comparison.
pub fn bytes_less(a: &[u8], b: &[u8]) -> (r: bool)
    ensures
        r == lex_less(a@, b@),
{
    let mut i: usize = 0;
    while i < a.len() && i < b.len() && a[i] == b[i]
        invariant
            0 <= i <= a@.len(),
            i <= b@.len(),
            forall|j: int| 0 <= j < i ==> a@[j] == b@[j],
        decreases a@.len() - i,
    {
        i = i + 1;
    }
    proof {
        lemma_lex_skip(a@, b@, i as int);
    }
    if i == a.len() {
        i < b.len()
    } else if i == b.len() {
        false
    } else {
        a[i] < b[i]
    }
}

/// Canonical ordering for pending XTs: period, then sequence, then id.
pub fn xt_less(a_id: &str, a: &PendingXt, b_id: &str, b: &PendingXt) -> (r: bool)
    ensures
        r == spec_xt_less(
            a_id.spec_bytes(),
            a.period_id.0,
            a.sequence_num.0,
            b_id.spec_bytes(),
            b.period_id.0,
            b.sequence_num.0,
        ),
{
    if a.period_id.0 != b.period_id.0 {
        return a.period_id.0 < b.period_id.0;
    }
    if a.sequence_num.0 != b.sequence_num.0 {
        return a.sequence_num.0 < b.sequence_num.0;
    }
    bytes_less(a_id.as_bytes(), b_id.as_bytes())
}

proof fn lemma_lex_irreflexive(a: Seq<u8>)
    ensures
        !lex_less(a, a),
    decreases a.len(),
{
    if a.len() > 0 {
        lemma_lex_irreflexive(a.drop_first());
    }
}

proof fn lemma_lex_total(a: Seq<u8>, b: Seq<u8>)
    ensures
        a =~= b || lex_less(a, b) || lex_less(b, a),
    decreases a.len(),
{
    if a.len() > 0 && b.len() > 0 && a[0] == b[0] {
        lemma_lex_total(a.drop_first(), b.drop_first());
        if a.drop_first() =~= b.drop_first() {
            assert(a =~= b) by {
                assert forall|i: int| 0 <= i < a.len() implies a[i] == b[i] by {
                    if i > 0 {
                        assert(a[i] == a.drop_first()[i - 1]);
                        assert(b[i] == b.drop_first()[i - 1]);
                    }
                }
            }
        }
    }
}

proof fn lemma_lex_asymmetric(a: Seq<u8>, b: Seq<u8>)
    ensures
        !(lex_less(a, b) && lex_less(b, a)),
    decreases a.len(),
{
    if a.len() > 0 && b.len() > 0 && a[0] == b[0] {
        lemma_lex_asymmetric(a.drop_first(), b.drop_first());
    }
}

proof fn lemma_lex_transitive(a: Seq<u8>, b: Seq<u8>, c: Seq<u8>)
    requires
        lex_less(a, b),
        lex_less(b, c),
    ensures
        lex_less(a, c),
    decreases a.len(),
{
    if a.len() > 0 && b.len() > 0 && c.len() > 0 && a[0] == b[0] && b[0] == c[0] {
        lemma_lex_transitive(a.drop_first(), b.drop_first(), c.drop_first());
    }
}

/// The canonical XT ordering is a strict total order on ordering keys:
/// irreflexive, asymmetric, transitive, and any two distinct keys are comparable.
pub proof fn lemma_xt_order_strict_total(
    a: (Seq<u8>, u64, u64),
    b: (Seq<u8>, u64, u64),
    c: (Seq<u8>, u64, u64),
)
    ensures
        !spec_xt_less(a.0, a.1, a.2, a.0, a.1, a.2),
        !(spec_xt_less(a.0, a.1, a.2, b.0, b.1, b.2) && spec_xt_less(b.0, b.1, b.2, a.0, a.1, a.2)),
        spec_xt_less(a.0, a.1, a.2, b.0, b.1, b.2) && spec_xt_less(b.0, b.1, b.2, c.0, c.1, c.2)
            ==> spec_xt_less(a.0, a.1, a.2, c.0, c.1, c.2),
        !(a.0 =~= b.0 && a.1 == b.1 && a.2 == b.2) ==> spec_xt_less(a.0, a.1, a.2, b.0, b.1, b.2)
            || spec_xt_less(b.0, b.1, b.2, a.0, a.1, a.2),
{
    lemma_lex_irreflexive(a.0);
    lemma_lex_asymmetric(a.0, b.0);
    lemma_lex_total(a.0, b.0);
    if lex_less(a.0, b.0) && lex_less(b.0, c.0) {
        lemma_lex_transitive(a.0, b.0, c.0);
    }
}

/// Canonical order puts the period first: an XT of an earlier period comes
/// before one of a later period whatever their sequence numbers and ids.
/// Within a period the lower sequence number comes first whatever the ids;
/// only equal period and sequence leave the order to the ids, compared byte
/// by byte (a proper prefix first).
pub proof fn lemma_xt_order_period_first(
    a_id: Seq<u8>,
    a_period: u64,
    a_seq: u64,
    b_id: Seq<u8>,
    b_period: u64,
    b_seq: u64,
)
    ensures
        a_period < b_period ==> spec_xt_less(a_id, a_period, a_seq, b_id, b_period, b_seq),
        a_period < b_period ==> !spec_xt_less(b_id, b_period, b_seq, a_id, a_period, a_seq),
        a_period == b_period && a_seq < b_seq ==> spec_xt_less(
            a_id,
            a_period,
            a_seq,
            b_id,
            b_period,
            b_seq,
        ) && !spec_xt_less(b_id, b_period, b_seq, a_id, a_period, a_seq),
        a_period == b_period && a_seq == b_seq && a_id.len() < b_id.len() && a_id =~= b_id.take(
            a_id.len() as int,
        ) ==> spec_xt_less(a_id, a_period, a_seq, b_id, b_period, b_seq),
        a_period == b_period && a_seq == b_seq ==> forall|k: int|
            0 <= k < a_id.len() && k < b_id.len() && a_id.take(k) =~= b_id.take(k) && #[trigger] a_id[k]
                < #[trigger] b_id[k] ==> spec_xt_less(a_id, a_period, a_seq, b_id, b_period, b_seq),
{
    if a_period == b_period && a_seq == b_seq {
        if a_id.len() < b_id.len() && a_id =~= b_id.take(a_id.len() as int) {
            lemma_lex_prefix(a_id, b_id);
        }
        assert forall|k: int|
            0 <= k < a_id.len() && k < b_id.len() && a_id.take(k) =~= b_id.take(k) && #[trigger] a_id[k]
                < #[trigger] b_id[k] implies lex_less(a_id, b_id) by {
            lemma_lex_first_difference(a_id, b_id, k);
        }
    }
}

proof fn lemma_lex_prefix(a: Seq<u8>, b: Seq<u8>)
    requires
        a.len() < b.len(),
        a =~= b.take(a.len() as int),
    ensures
        lex_less(a, b),
    decreases a.len(),
{
    if a.len() > 0 {
        assert(a[0] == b[0]);
        assert(a.drop_first() =~= b.drop_first().take(a.drop_first().len() as int));
        lemma_lex_prefix(a.drop_first(), b.drop_first());
    }
}

proof fn lemma_lex_first_difference(a: Seq<u8>, b: Seq<u8>, k: int)
    requires
        0 <= k < a.len(),
        k < b.len(),
        a.take(k) =~= b.take(k),
        a[k] < b[k],
    ensures
        lex_less(a, b),
    decreases k,
{
    if k > 0 {
        assert(a[0] == a.take(k)[0] && b[0] == b.take(k)[0]);
        assert(a.drop_first().take(k - 1) =~= b.drop_first().take(k - 1)) by {
            assert forall|j: int| 0 <= j < k - 1 implies #[trigger] a.drop_first().take(k - 1)[j] == b.drop_first().take(k - 1)[j] by {
                assert(a.take(k)[j + 1] == b.take(k)[j + 1]);
            }
        }
        lemma_lex_first_difference(a.drop_first(), b.drop_first(), k - 1);
    }
}

} // verus!
