//! Builder polling: which XT the builder waits on, which committed XTs it
//! receives, and in what order.
//!
//! The builder polls once per flashblock. Pending XTs with transactions for
//! the polling chain are taken in canonical order (period, sequence, id). The
//! first undecided one blocks everything after it; before it, committed XTs
//! are delivered when their first transaction's nonce is the next one the
//! sender is expected to use.

use vstd::prelude::*;
use vstd::string::StringSliceAdditionalSpecFns;

use crate::admission::{chain_table, decode_sender_nonce, same_but_mailbox, spec_decode_sender_nonce};
use crate::coordinator::{
    cs_key, deps_for_chain, deps_same, spec_deps_for_chain, xt_key, ChainState, CoordinatorState,
    DefaultCoordinator,
};
use crate::keyed::{
    keyed_map, keys_distinct, lemma_keyed_absent, lemma_keyed_at, lemma_keyed_push,
    lemma_keyed_update,
};
use crate::overrides::{sender_nonce_from_overrides, spec_override_nonce, AccountView, StateOverride};
use crate::types::{clone_byte_vecs, Address, ChainId, CrossRollupDependency};
use crate::xt::{bytes_view, chain_txs, spec_xt_less, txs_for, xt_less, xt_wf, PendingXt};

verus! {

broadcast use vstd::seq::group_seq_axioms;

/// A builder poll: the polling chain's block position and state overrides.
#[derive(Debug)]
pub struct BuilderPollRequest {
    pub chain_id: ChainId,
    pub block_number: u64,
    pub flashblock_index: u64,
    pub state_root: [u8; 32],
    pub timestamp: u64,
    pub gas_limit: u64,
    pub state_overrides: Option<StateOverride>,
}

/// A committed XT ready for delivery, with the putInbox transactions that
/// must precede its own.
#[derive(Debug)]
pub struct DeliverableXt {
    pub id: String,
    pub put_inbox_txs: Vec<Vec<u8>>,
    pub raw_txs: Vec<Vec<u8>>,
    pub deps: Vec<CrossRollupDependency>,
}

/// The transactions of one XT handed to the builder, in inclusion order.
#[derive(Debug)]
pub struct XtPayload {
    pub instance_id: String,
    pub transactions: Vec<Vec<u8>>,
}

/// The answer to a builder poll.
#[derive(Debug)]
pub struct BuilderPollResponse {
    pub hold: bool,
    pub transactions: Vec<XtPayload>,
    pub poll_after_ms: Option<u64>,
    pub max_hold_ms: Option<u64>,
}

/// What a poll leads to.
#[derive(Debug)]
pub enum PollPlan {
    /// Nothing to deliver and nothing to wait for.
    Idle,
    /// An undecided XT blocks delivery: the builder holds.
    Hold,
    /// The blocking XT was locked for local simulation: the caller starts it,
    /// and the builder holds.
    Simulate { instance_id: String },
    /// Committed XTs to deliver, in order; the caller builds their putInbox
    /// transactions and then the payloads.
    Deliver { deliverables: Vec<DeliverableXt> },
}

/// An empty, non-holding answer.
pub fn idle_response() -> (r: BuilderPollResponse)
    ensures
        !r.hold,
        r.transactions@.len() == 0,
        r.poll_after_ms is None,
        r.max_hold_ms is None,
{
    BuilderPollResponse { hold: false, transactions: Vec::new(), poll_after_ms: None, max_hold_ms: None }
}

/// A holding answer: poll again after 50 ms, hold at most `max_hold_ms`.
pub fn hold_response(max_hold_ms: u64) -> (r: BuilderPollResponse)
    ensures
        r.hold,
        r.transactions@.len() == 0,
        r.poll_after_ms == Some(50u64),
        r.max_hold_ms == Some(max_hold_ms),
{
    BuilderPollResponse {
        hold: true,
        transactions: Vec::new(),
        poll_after_ms: Some(50),
        max_hold_ms: Some(max_hold_ms),
    }
}

/// `out` holds one payload per deliverable, in order: the XT's id, then its
/// putInbox transactions followed by its own transactions.
pub open spec fn payloads_of(d: Seq<DeliverableXt>, out: Seq<XtPayload>) -> bool {
    &&& out.len() == d.len()
    &&& forall|i: int|
        0 <= i < out.len() ==> (#[trigger] out[i]).instance_id@ == d[i].id@ && bytes_view(
            out[i].transactions@,
        ) == bytes_view(d[i].put_inbox_txs@) + bytes_view(d[i].raw_txs@)
}

/// The payloads for delivered XTs: each XT's putInbox transactions, then its
/// own transactions.
pub fn build_transaction_payloads(deliverables: &Vec<DeliverableXt>) -> (out: Vec<XtPayload>)
    ensures
        payloads_of(deliverables@, out@),
{
    let mut out: Vec<XtPayload> = Vec::new();
    let mut i: usize = 0;
    while i < deliverables.len()
        invariant
            0 <= i <= deliverables@.len(),
            out@.len() == i,
            forall|j: int|
                0 <= j < i ==> (#[trigger] out@[j]).instance_id@ == deliverables@[j].id@
                    && bytes_view(out@[j].transactions@) == bytes_view(
                    deliverables@[j].put_inbox_txs@,
                ) + bytes_view(deliverables@[j].raw_txs@),
        decreases deliverables@.len() - i,
    {
        let d = &deliverables[i];
        let mut txs = clone_byte_vecs(&d.put_inbox_txs);
        let mut own = clone_byte_vecs(&d.raw_txs);
        let ghost a = txs@;
        let ghost b = own@;
        txs.append(&mut own);
        proof {
            assert(bytes_view(txs@) =~= bytes_view(d.put_inbox_txs@) + bytes_view(d.raw_txs@)) by {
                assert(txs@ =~= a + b);
            }
        }
        out.push(XtPayload { instance_id: d.id.clone(), transactions: txs });
        i = i + 1;
    }
    out
}

// ---------------------------------------------------------------------------
// Canonical order of the XTs a chain polls for.
// ---------------------------------------------------------------------------

/// `a` comes before `b` in canonical order: period, then sequence, then id.
pub open spec fn xt_before(a: PendingXt, b: PendingXt) -> bool {
    spec_xt_less(
        vstd::utf8::encode_utf8(a.id@),
        a.period_id.0,
        a.sequence_num.0,
        vstd::utf8::encode_utf8(b.id@),
        b.period_id.0,
        b.sequence_num.0,
    )
}

/// The XT carries a transaction table for chain `c` (possibly empty).
pub open spec fn polls_for(xt: PendingXt, c: ChainId) -> bool {
    txs_for(xt, c) is Some
}

/// `order` lists, without repetition and in canonical order, exactly the
/// pending XTs that carry a table for chain `c`.
pub open spec fn poll_order(order: Seq<int>, pending: Seq<PendingXt>, c: ChainId) -> bool {
    &&& forall|k: int| 0 <= k < order.len() ==> 0 <= #[trigger] order[k] < pending.len()
    &&& forall|k: int| 0 <= k < order.len() ==> polls_for(pending[#[trigger] order[k]], c)
    &&& forall|i: int|
        0 <= i < pending.len() && polls_for(#[trigger] pending[i], c) ==> order.contains(i)
    &&& forall|a: int, b: int|
        0 <= a < b < order.len() ==> xt_before(pending[order[a]], pending[order[b]])
}

/// A chain's poll order never puts an XT after one of a later period, and
/// within a period never after one with a higher sequence number: a
/// committed XT left over from an earlier period is handed to the builder
/// before the XTs of the next period.
pub proof fn lemma_poll_order_by_period(order: Seq<int>, pending: Seq<PendingXt>, c: ChainId)
    requires
        poll_order(order, pending, c),
    ensures
        forall|a: int, b: int|
            0 <= a < b < order.len() ==> (#[trigger] pending[order[a]]).period_id.0 <= (
            #[trigger] pending[order[b]]).period_id.0,
        forall|a: int, b: int|
            0 <= a < b < order.len() && (#[trigger] pending[order[a]]).period_id.0 == (
            #[trigger] pending[order[b]]).period_id.0 ==> pending[order[a]].sequence_num.0
                <= pending[order[b]].sequence_num.0,
{
    assert forall|a: int, b: int|
        0 <= a < b < order.len() implies (#[trigger] pending[order[a]]).period_id.0 <= (
        #[trigger] pending[order[b]]).period_id.0 && (pending[order[a]].period_id.0
        == pending[order[b]].period_id.0 ==> pending[order[a]].sequence_num.0
        <= pending[order[b]].sequence_num.0) by {
        let x = pending[order[a]];
        let y = pending[order[b]];
        assert(xt_before(x, y));
        crate::xt::lemma_xt_order_period_first(
            vstd::utf8::encode_utf8(y.id@),
            y.period_id.0,
            y.sequence_num.0,
            vstd::utf8::encode_utf8(x.id@),
            x.period_id.0,
            x.sequence_num.0,
        );
    }
}

proof fn lemma_key_distinct_order(x: PendingXt, y: PendingXt)
    requires
        x.id@ != y.id@,
    ensures
        xt_before(x, y) || xt_before(y, x),
{
    vstd::utf8::encode_utf8_decode_utf8(x.id@);
    vstd::utf8::encode_utf8_decode_utf8(y.id@);
    crate::xt::lemma_xt_order_strict_total(
        (vstd::utf8::encode_utf8(x.id@), x.period_id.0, x.sequence_num.0),
        (vstd::utf8::encode_utf8(y.id@), y.period_id.0, y.sequence_num.0),
        (vstd::utf8::encode_utf8(y.id@), y.period_id.0, y.sequence_num.0),
    );
}

proof fn lemma_before_transitive(x: PendingXt, y: PendingXt, z: PendingXt)
    requires
        xt_before(x, y),
        xt_before(y, z),
    ensures
        xt_before(x, z),
{
    crate::xt::lemma_xt_order_strict_total(
        (vstd::utf8::encode_utf8(x.id@), x.period_id.0, x.sequence_num.0),
        (vstd::utf8::encode_utf8(y.id@), y.period_id.0, y.sequence_num.0),
        (vstd::utf8::encode_utf8(z.id@), z.period_id.0, z.sequence_num.0),
    );
}

// ---------------------------------------------------------------------------
// Delivery scan.
// ---------------------------------------------------------------------------

/// Progress of the delivery scan: the XTs delivered so far (as indices), the
/// next nonce expected from each sender, and whether an undecided XT stopped
/// the scan.
pub struct ScanState {
    pub delivered: Seq<int>,
    pub expected: Map<Address, u64>,
    pub blocked: bool,
}

/// One step of the delivery scan over XT `idx`: an undecided XT stops the
/// scan; an aborted one, one without local transactions, or one whose first
/// transaction does not decode is passed over. A committed XT is delivered
/// when its first nonce is the one expected from its sender (the override's
/// nonce for a sender seen first, else the XT's own); the sender is then
/// expected at the nonce after the XT's transactions.
pub open spec fn scan_step(
    st: ScanState,
    xt: PendingXt,
    idx: int,
    c: ChainId,
    ov: Option<Map<Address, AccountView>>,
) -> ScanState {
    if st.blocked {
        st
    } else {
        match xt.decision {
            None => ScanState { blocked: true, ..st },
            Some(false) => st,
            Some(true) => {
                let txs = txs_for(xt, c).unwrap();
                if txs.len() == 0 {
                    st
                } else {
                    match spec_decode_sender_nonce(txs[0]) {
                        None => st,
                        Some((sender, nonce)) => {
                            let exp = if st.expected.dom().contains(sender) {
                                st.expected[sender]
                            } else {
                                match ov {
                                    Some(o) => match spec_override_nonce(o, sender) {
                                        Some(n) => n,
                                        None => nonce,
                                    },
                                    None => nonce,
                                }
                            };
                            if nonce != exp {
                                ScanState { expected: st.expected.insert(sender, exp), ..st }
                            } else {
                                ScanState {
                                    delivered: st.delivered.push(idx),
                                    expected: st.expected.insert(
                                        sender,
                                        wrap_add(nonce, txs.len()),
                                    ),
                                    blocked: false,
                                }
                            }
                        },
                    }
                }
            },
        }
    }
}

/// `a + b` wrapped to 64 bits (`b` fits in 64 bits).
pub open spec fn wrap_add(a: u64, b: nat) -> u64 {
    if a + b > u64::MAX {
        (a + b - 0x1_0000_0000_0000_0000) as u64
    } else {
        (a + b) as u64
    }
}

/// The delivery scan over `order`.
pub open spec fn poll_scan(
    pending: Seq<PendingXt>,
    order: Seq<int>,
    c: ChainId,
    ov: Option<Map<Address, AccountView>>,
) -> ScanState
    decreases order.len(),
{
    if order.len() == 0 {
        ScanState { delivered: Seq::empty(), expected: Map::empty(), blocked: false }
    } else {
        scan_step(
            poll_scan(pending, order.drop_last(), c, ov),
            pending[order.last()],
            order.last(),
            c,
            ov,
        )
    }
}

/// Expected nonces per sender.
pub struct NonceExpectation {
    pub sender: Address,
    pub nonce: u64,
}

/// The key of a nonce expectation.
pub open spec fn ne_key(e: NonceExpectation) -> Address {
    e.sender
}

/// Expected nonces viewed as a map.
pub open spec fn expectation_map(s: Seq<NonceExpectation>) -> Map<Address, u64> {
    Map::new(
        |a: Address| keyed_map(s, |e: NonceExpectation| ne_key(e)).dom().contains(a),
        |a: Address| keyed_map(s, |e: NonceExpectation| ne_key(e))[a].nonce,
    )
}

/// Sets the expected nonce of `sender`.
fn set_expected(exp: &mut Vec<NonceExpectation>, sender: Address, nonce: u64)
    requires
        keys_distinct(old(exp)@, |e: NonceExpectation| ne_key(e)),
    ensures
        keys_distinct(final(exp)@, |e: NonceExpectation| ne_key(e)),
        expectation_map(final(exp)@) == expectation_map(old(exp)@).insert(sender, nonce),
{
    let ghost before = exp@;
    let e = NonceExpectation { sender, nonce };
    match find_expected(exp, &sender) {
        Some(i) => {
            let _ = exp.remove(i);
            exp.insert(i, e);
            proof {
                assert(exp@ =~= before.update(i as int, e));
                lemma_keyed_update(before, |e: NonceExpectation| ne_key(e), i as int, e);
            }
        },
        None => {
            proof {
                lemma_keyed_push(before, |e: NonceExpectation| ne_key(e), e);
            }
            exp.push(e);
        },
    }
    proof {
        assert(expectation_map(exp@) =~= expectation_map(before).insert(sender, nonce));
    }
}

/// The expected nonce of `sender`, if one is set.
fn find_expected(exp: &Vec<NonceExpectation>, sender: &Address) -> (r: Option<usize>)
    requires
        keys_distinct(exp@, |e: NonceExpectation| ne_key(e)),
    ensures
        r matches Some(i) ==> i < exp@.len() && exp@[i as int].sender == *sender
            && expectation_map(exp@).dom().contains(*sender) && expectation_map(exp@)[*sender]
            == exp@[i as int].nonce,
        r is None ==> !expectation_map(exp@).dom().contains(*sender),
{
    let mut i: usize = 0;
    while i < exp.len()
        invariant
            keys_distinct(exp@, |e: NonceExpectation| ne_key(e)),
            0 <= i <= exp@.len(),
            forall|j: int| 0 <= j < i ==> (#[trigger] exp@[j]).sender != *sender,
        decreases exp@.len() - i,
    {
        if crate::overrides::address_eq(&exp[i].sender, sender) {
            proof {
                lemma_keyed_at(exp@, |e: NonceExpectation| ne_key(e), i as int);
            }
            return Some(i);
        }
        i = i + 1;
    }
    proof {
        lemma_keyed_absent(exp@, |e: NonceExpectation| ne_key(e), *sender);
    }
    None
}

/// The deliverables correspond, in order, to the delivered XTs.
pub open spec fn deliverables_match(
    d: Seq<DeliverableXt>,
    delivered: Seq<int>,
    pending: Seq<PendingXt>,
    c: ChainId,
) -> bool {
    &&& d.len() == delivered.len()
    &&& forall|k: int|
        0 <= k < d.len() ==> {
            let x = pending[delivered[k]];
            &&& (#[trigger] d[k]).id@ == x.id@
            &&& d[k].put_inbox_txs@.len() == 0
            &&& bytes_view(d[k].raw_txs@) == txs_for(x, c).unwrap()
            &&& deps_same(d[k].deps@, spec_deps_for_chain(x.fulfilled_deps@, c))
        }
}

/// The overrides of a poll viewed by contents.
pub open spec fn overrides_view(o: Option<StateOverride>) -> Option<Map<Address, AccountView>> {
    match o {
        Some(s) => Some(s.view_map()),
        None => None,
    }
}

impl CoordinatorState {
    /// Runs the delivery scan over `order`.
    fn scan_deliverables(&self, order: &Vec<usize>, c: ChainId, ov: &Option<StateOverride>) -> (r: (
        Vec<DeliverableXt>,
        bool,
    ))
        requires
            self.wf(),
            poll_order(order@.map_values(|i: usize| i as int), self.pending@, c),
            ov matches Some(o) ==> o.wf(),
        ensures
            deliverables_match(
                r.0@,
                poll_scan(self.pending@, order@.map_values(|i: usize| i as int), c, overrides_view(*ov)).delivered,
                self.pending@,
                c,
            ),
            r.1 == poll_scan(self.pending@, order@.map_values(|i: usize| i as int), c, overrides_view(*ov)).blocked,
    {
        let ghost ord = order@.map_values(|i: usize| i as int);
        let ghost ovv = overrides_view(*ov);
        let mut out: Vec<DeliverableXt> = Vec::new();
        let mut exp: Vec<NonceExpectation> = Vec::new();
        proof {
            crate::keyed::lemma_keyed_empty(|e: NonceExpectation| ne_key(e));
            assert(expectation_map(exp@) =~= Map::<Address, u64>::empty());
        }
        let mut k: usize = 0;
        let mut blocked = false;
        while k < order.len()
            invariant
                self.wf(),
                ord == order@.map_values(|i: usize| i as int),
                poll_order(ord, self.pending@, c),
                ov matches Some(o) ==> o.wf(),
                ovv == overrides_view(*ov),
                0 <= k <= order@.len(),
                keys_distinct(exp@, |e: NonceExpectation| ne_key(e)),
                ({
                    let st = poll_scan(self.pending@, ord.take(k as int), c, ovv);
                    &&& deliverables_match(out@, st.delivered, self.pending@, c)
                    &&& expectation_map(exp@) == st.expected
                    &&& blocked == st.blocked
                }),
                !blocked,
            decreases order@.len() - k,
        {
            proof {
                assert(ord.take(k + 1).drop_last() =~= ord.take(k as int));
                assert(ord.take(k + 1).last() == ord[k as int]);
                assert(ord[k as int] == order@[k as int] as int);
            }
            let idx = order[k];
            let xt = &self.pending[idx];
            let ghost st = poll_scan(self.pending@, ord.take(k as int), c, ovv);
            match xt.decision {
                None => {
                    blocked = true;
                    proof {
                        assert(poll_scan(self.pending@, ord.take(k + 1), c, ovv).blocked);
                        lemma_scan_blocked(self.pending@, ord, c, ovv, k as int + 1);
                        assert(ord.take(ord.len() as int) =~= ord);
                    }
                    return (out, true);
                },
                Some(false) => {},
                Some(true) => {
                    proof {
                        assert(polls_for(self.pending@[ord[k as int]], c));
                    }
                    let txs = chain_txs(xt, c).unwrap();
                    if txs.len() > 0 {
                        match decode_sender_nonce(txs[0].as_slice()) {
                            None => {},
                            Some((sender, nonce)) => {
                                let expected = match find_expected(&exp, &sender) {
                                    Some(i) => exp[i].nonce,
                                    None => match ov {
                                        Some(o) => match sender_nonce_from_overrides(o, &sender) {
                                            Some(n) => n,
                                            None => nonce,
                                        },
                                        None => nonce,
                                    },
                                };
                                if nonce != expected {
                                    set_expected(&mut exp, sender, expected);
                                } else {
                                    let next = nonce.wrapping_add(txs.len() as u64);
                                    set_expected(&mut exp, sender, next);
                                    let raw = clone_byte_vecs(txs);
                                    let deps = deps_for_chain(xt.fulfilled_deps.as_slice(), c);
                                    let ghost before = out@;
                                    out.push(
                                        DeliverableXt {
                                            id: xt.id.clone(),
                                            put_inbox_txs: Vec::new(),
                                            raw_txs: raw,
                                            deps,
                                        },
                                    );
                                    proof {
                                        assert(bytes_view(raw@) =~= bytes_view(txs@));
                                        let st2 = poll_scan(self.pending@, ord.take(k + 1), c, ovv);
                                        assert forall|j: int| 0 <= j < out@.len() implies {
                                            let x = self.pending@[st2.delivered[j]];
                                            &&& (#[trigger] out@[j]).id@ == x.id@
                                            &&& out@[j].put_inbox_txs@.len() == 0
                                            &&& bytes_view(out@[j].raw_txs@) == txs_for(x, c).unwrap()
                                            &&& deps_same(
                                                out@[j].deps@,
                                                spec_deps_for_chain(x.fulfilled_deps@, c),
                                            )
                                        } by {
                                            if j < before.len() {
                                                assert(out@[j] == before[j]);
                                                assert(st2.delivered[j] == st.delivered[j]);
                                            }
                                        }
                                    }
                                }
                            },
                        }
                    }
                },
            }
            k = k + 1;
        }
        proof {
            assert(ord.take(order@.len() as int) =~= ord);
        }
        (out, blocked)
    }
}

/// Once the scan is blocked it stays blocked and delivers nothing more.
proof fn lemma_scan_blocked(
    pending: Seq<PendingXt>,
    order: Seq<int>,
    c: ChainId,
    ov: Option<Map<Address, AccountView>>,
    k: int,
)
    requires
        0 <= k <= order.len(),
        poll_scan(pending, order.take(k), c, ov).blocked,
    ensures
        poll_scan(pending, order, c, ov) == poll_scan(pending, order.take(k), c, ov),
    decreases order.len() - k,
{
    if k < order.len() {
        assert(order.take(k + 1).drop_last() =~= order.take(k));
        lemma_scan_blocked(pending, order, c, ov, k + 1);
    } else {
        assert(order.take(k) =~= order);
    }
}

impl CoordinatorState {
    /// Whether XT `i` comes before XT `j` in canonical order.
    fn before(&self, i: usize, j: usize) -> (r: bool)
        requires
            i < self.pending@.len(),
            j < self.pending@.len(),
        ensures
            r == xt_before(self.pending@[i as int], self.pending@[j as int]),
    {
        let a = &self.pending[i];
        let b = &self.pending[j];
        xt_less(a.id.as_str(), a, b.id.as_str(), b)
    }

    /// The pending XTs with a table for chain `c`, in canonical order.
    pub fn poll_entries(&self, c: ChainId) -> (order: Vec<usize>)
        requires
            self.wf(),
        ensures
            poll_order(order@.map_values(|i: usize| i as int), self.pending@, c),
    {
        let mut order: Vec<usize> = Vec::new();
        let mut i: usize = 0;
        while i < self.pending.len()
            invariant
                self.wf(),
                0 <= i <= self.pending@.len(),
                forall|k: int| 0 <= k < order@.len() ==> (#[trigger] order@[k]) < i,
                forall|k: int|
                    0 <= k < order@.len() ==> polls_for(self.pending@[#[trigger] order@[k] as int], c),
                forall|m: int|
                    0 <= m < i && polls_for(#[trigger] self.pending@[m], c) ==> order@.contains(
                        m as usize,
                    ),
                forall|a: int, b: int|
                    0 <= a < b < order@.len() ==> xt_before(
                        self.pending@[order@[a] as int],
                        self.pending@[order@[b] as int],
                    ),
            decreases self.pending@.len() - i,
        {
            let present = chain_txs(&self.pending[i], c).is_some();
            if present {
                // Insert `i` after every entry that comes before it.
                let mut pos: usize = 0;
                while pos < order.len() && self.before(order[pos], i)
                    invariant
                        self.wf(),
                        i < self.pending@.len(),
                        0 <= pos <= order@.len(),
                        forall|k: int| 0 <= k < order@.len() ==> (#[trigger] order@[k]) < i,
                        forall|k: int|
                            0 <= k < pos ==> xt_before(
                                self.pending@[#[trigger] order@[k] as int],
                                self.pending@[i as int],
                            ),
                    decreases order@.len() - pos,
                {
                    pos = pos + 1;
                }
                let ghost before = order@;
                proof {
                    // Everything from `pos` on comes after `i`.
                    assert forall|k: int| pos <= k < before.len() implies xt_before(
                        self.pending@[i as int],
                        self.pending@[#[trigger] before[k] as int],
                    ) by {
                        let x = self.pending@[i as int];
                        let y = self.pending@[before[pos as int] as int];
                        assert(!xt_before(y, x));
                        assert(before[pos as int] < i);
                        crate::keyed::lemma_keyed_at(self.pending@, |x: PendingXt| xt_key(x), i as int);
                        if x.id@ == y.id@ {
                            crate::keyed::lemma_keyed_same(
                                self.pending@,
                                |x: PendingXt| xt_key(x),
                                before[pos as int] as int,
                                i as int,
                            );
                        }
                        lemma_key_distinct_order(x, y);
                        if k > pos {
                            lemma_before_transitive(
                                x,
                                y,
                                self.pending@[before[k] as int],
                            );
                        }
                    }
                }
                order.insert(pos, i);
                proof {
                    let after = order@;
                    assert forall|a: int, b: int|
                        0 <= a < b < after.len() implies xt_before(
                        self.pending@[after[a] as int],
                        self.pending@[after[b] as int],
                    ) by {
                        let ia = if a < pos {
                            a
                        } else {
                            a - 1
                        };
                        let ib = if b < pos {
                            b
                        } else {
                            b - 1
                        };
                        if a != pos as int && b != pos as int {
                            assert(after[a] == before[ia] && after[b] == before[ib]);
                        } else if a == pos as int {
                            assert(after[b] == before[ib]);
                        } else {
                            assert(after[a] == before[ia]);
                        }
                    }
                    assert forall|m: int|
                        0 <= m < i + 1 && polls_for(#[trigger] self.pending@[m], c) implies after.contains(
                        m as usize,
                    ) by {
                        if m == i {
                            assert(after[pos as int] == i);
                        } else {
                            assert(before.contains(m as usize));
                            let k = choose|k: int| 0 <= k < before.len() && before[k] == m as usize;
                            if k < pos {
                                assert(after[k] == before[k]);
                            } else {
                                assert(after[k + 1] == before[k]);
                            }
                        }
                    }
                    assert forall|k: int| 0 <= k < after.len() implies polls_for(
                        self.pending@[#[trigger] after[k] as int],
                        c,
                    ) && after[k] < i + 1 by {
                        if k < pos {
                            assert(after[k] == before[k]);
                        } else if k > pos {
                            assert(after[k] == before[k - 1]);
                        }
                    }
                }
            }
            i = i + 1;
        }
        proof {
            let o = order@.map_values(|i: usize| i as int);
            assert forall|m: int|
                0 <= m < self.pending@.len() && polls_for(#[trigger] self.pending@[m], c) implies o.contains(m) by {
                let k = choose|k: int| 0 <= k < order@.len() && order@[k] == m as usize;
                assert(o[k] == m);
            }
        }
        order
    }
}

/// The chain-state table viewed as a map from chain.
/// The chain-state table `after` is `before` with the poll `req` recorded as
/// the latest snapshot of its chain, and no other chain touched.
pub open spec fn chain_state_recorded(
    before: Seq<ChainState>,
    after: Seq<ChainState>,
    req: BuilderPollRequest,
) -> bool {
    let m0 = chain_state_map(before);
    let m1 = chain_state_map(after);
    &&& m1.dom() == m0.dom().insert(req.chain_id)
    &&& forall|c: ChainId| #[trigger] m0.dom().contains(c) && c != req.chain_id ==> m1[c] == m0[c]
    &&& ({
        let cs = m1[req.chain_id];
        &&& cs.block_number == req.block_number
        &&& cs.flashblock_index == req.flashblock_index
        &&& cs.state_root == req.state_root
        &&& cs.timestamp == req.timestamp
        &&& cs.gas_limit == req.gas_limit
        &&& overrides_view(cs.state_overrides) == overrides_view(req.state_overrides)
    })
}

pub open spec fn chain_state_map(s: Seq<ChainState>) -> Map<ChainId, ChainState> {
    keyed_map(s, |c: ChainState| cs_key(c))
}

/// The position in `order` of the first undecided XT.
pub open spec fn first_undecided(pending: Seq<PendingXt>, order: Seq<int>) -> Option<int> {
    if exists|k: int|
        0 <= k < order.len() && (#[trigger] pending[order[k]]).decision is None && forall|j: int|
            0 <= j < k ==> (#[trigger] pending[order[j]]).decision is Some {
        Some(
            choose|k: int|
                0 <= k < order.len() && (#[trigger] pending[order[k]]).decision is None && forall|
                    j: int,
                | 0 <= j < k ==> (#[trigger] pending[order[j]]).decision is Some,
        )
    } else {
        None
    }
}

/// Whether an undecided XT may start simulating: with a publisher, every chain
/// it spans must have polled at least once; without one, the polling chain's
/// state suffices.
pub open spec fn sim_ready(x: PendingXt, known: Set<ChainId>, connected: bool) -> bool {
    connected ==> forall|c: ChainId| #[trigger] chain_table(x.raw_txs@).dom().contains(c) ==> known.contains(c)
}

/// `b` is `a` with only its locked chains changed.
pub open spec fn same_but_locked(a: PendingXt, b: PendingXt) -> bool {
    b == PendingXt { locked_chains: b.locked_chains, ..a }
}

/// The outcome of a poll over `order` (the canonical order of the XTs with a
/// table for chain `c`) and the pending table after it.
pub open spec fn poll_decision(
    pending: Seq<PendingXt>,
    after: Seq<PendingXt>,
    order: Seq<int>,
    c: ChainId,
    connected: bool,
    known: Set<ChainId>,
    ov: Option<Map<Address, AccountView>>,
    plan: PollPlan,
) -> bool {
    let u = first_undecided(pending, order);
    let starts = u matches Some(k) && sim_ready(pending[order[k]], known, connected)
        && !pending[order[k]].vote_sent && !pending[order[k]].locked_chains@.contains(c);
    if order.len() == 0 {
        plan is Idle && after == pending
    } else if starts {
        let idx = order[u.unwrap()];
        let x = pending[idx];
        &&& plan matches PollPlan::Simulate { instance_id } && instance_id@ == x.id@
        &&& after.len() == pending.len()
        &&& forall|j: int| 0 <= j < pending.len() && j != idx ==> after[j] == pending[j]
        &&& same_but_locked(x, after[idx])
        &&& after[idx].locked_chains@ == x.locked_chains@.push(c)
    } else {
        let st = poll_scan(pending, order, c, ov);
        &&& after == pending
        &&& if st.delivered.len() > 0 {
            plan matches PollPlan::Deliver { deliverables } && deliverables_match(
                deliverables@,
                st.delivered,
                pending,
                c,
            )
        } else if st.blocked {
            plan is Hold
        } else {
            plan is Idle
        }
    }
}

impl CoordinatorState {
    /// Index of chain `c` in the chain-state table.
    fn find_chain_state(&self, c: ChainId) -> (r: Option<usize>)
        requires
            self.wf(),
        ensures
            r matches Some(i) ==> i < self.chain_states@.len() && self.chain_states@[i as int].chain_id == c
                && chain_state_map(self.chain_states@).dom().contains(c),
            r is None ==> !chain_state_map(self.chain_states@).dom().contains(c),
    {
        let mut i: usize = 0;
        while i < self.chain_states.len()
            invariant
                self.wf(),
                0 <= i <= self.chain_states@.len(),
                forall|j: int| 0 <= j < i ==> (#[trigger] self.chain_states@[j]).chain_id != c,
            decreases self.chain_states@.len() - i,
        {
            if self.chain_states[i].chain_id == c {
                proof {
                    lemma_keyed_at(self.chain_states@, |x: ChainState| cs_key(x), i as int);
                }
                return Some(i);
            }
            i = i + 1;
        }
        proof {
            lemma_keyed_absent(self.chain_states@, |x: ChainState| cs_key(x), c);
        }
        None
    }

    /// Records the latest poll of the polling chain.
    pub fn record_chain_state(&mut self, req: &BuilderPollRequest)
        requires
            old(self).wf(),
            req.state_overrides matches Some(o) ==> o.wf(),
        ensures
            final(self).wf(),
            final(self).pending == old(self).pending,
            final(self).publisher_period == old(self).publisher_period,
            final(self).origin_seq == old(self).origin_seq,
            final(self).submitted_fingerprints == old(self).submitted_fingerprints,
            final(self).pending_submissions == old(self).pending_submissions,
            final(self).mailbox_buffer == old(self).mailbox_buffer,
            final(self).current_period_id == old(self).current_period_id,
            final(self).current_superblock_num == old(self).current_superblock_num,
            final(self).chain_overlays == old(self).chain_overlays,
            chain_state_recorded(old(self).chain_states@, final(self).chain_states@, *req),
    {
        let overrides = match &req.state_overrides {
            Some(o) => Some(o.duplicate()),
            None => None,
        };
        let snapshot = ChainState {
            chain_id: req.chain_id,
            block_number: req.block_number,
            flashblock_index: req.flashblock_index,
            state_root: req.state_root,
            timestamp: req.timestamp,
            gas_limit: req.gas_limit,
            state_overrides: overrides,
        };
        let ghost before = self.chain_states@;
        match self.find_chain_state(req.chain_id) {
            Some(i) => {
                let _ = self.chain_states.remove(i);
                self.chain_states.insert(i, snapshot);
                proof {
                    assert(self.chain_states@ =~= before.update(i as int, snapshot));
                    lemma_keyed_update(before, |x: ChainState| cs_key(x), i as int, snapshot);
                    assert(chain_state_map(self.chain_states@).dom() =~= chain_state_map(
                        before,
                    ).dom().insert(req.chain_id));
                }
            },
            None => {
                proof {
                    lemma_keyed_push(before, |x: ChainState| cs_key(x), snapshot);
                }
                self.chain_states.push(snapshot);
                proof {
                    assert(chain_state_map(self.chain_states@).dom() =~= chain_state_map(
                        before,
                    ).dom().insert(req.chain_id));
                }
            },
        }
    }

    /// Position in `order` of the first undecided XT.
    fn find_first_undecided(&self, order: &Vec<usize>) -> (r: Option<usize>)
        requires
            forall|k: int| 0 <= k < order@.len() ==> (#[trigger] order@[k]) < self.pending@.len(),
        ensures
            r matches Some(k) ==> first_undecided(self.pending@, order@.map_values(|i: usize| i as int))
                == Some(k as int) && k < order@.len(),
            r is None ==> first_undecided(self.pending@, order@.map_values(|i: usize| i as int)) is None,
    {
        let ghost ord = order@.map_values(|i: usize| i as int);
        let mut k: usize = 0;
        while k < order.len()
            invariant
                ord == order@.map_values(|i: usize| i as int),
                forall|k: int| 0 <= k < order@.len() ==> (#[trigger] order@[k]) < self.pending@.len(),
                0 <= k <= order@.len(),
                forall|j: int| 0 <= j < k ==> (#[trigger] self.pending@[ord[j]]).decision is Some,
            decreases order@.len() - k,
        {
            if self.pending[order[k]].decision.is_none() {
                proof {
                    assert(self.pending@[ord[k as int]].decision is None);
                    let q = choose|q: int|
                        0 <= q < ord.len() && (#[trigger] self.pending@[ord[q]]).decision is None
                            && forall|j: int| 0 <= j < q ==> (#[trigger] self.pending@[ord[j]]).decision is Some;
                    if q < k {
                        assert(self.pending@[ord[q]].decision is Some);
                    }
                    if k < q {
                        assert(self.pending@[ord[k as int]].decision is Some);
                    }
                }
                return Some(k);
            }
            k = k + 1;
        }
        proof {
            if exists|q: int|
                0 <= q < ord.len() && (#[trigger] self.pending@[ord[q]]).decision is None && forall|j: int|
                    0 <= j < q ==> (#[trigger] self.pending@[ord[j]]).decision is Some {
                let q = choose|q: int|
                    0 <= q < ord.len() && (#[trigger] self.pending@[ord[q]]).decision is None
                        && forall|j: int| 0 <= j < q ==> (#[trigger] self.pending@[ord[j]]).decision is Some;
                assert(self.pending@[ord[q]].decision is Some);
            }
        }
        None
    }

    /// Whether every chain XT `idx` spans has polled.
    fn spans_known_chains(&self, idx: usize) -> (r: bool)
        requires
            self.wf(),
            idx < self.pending@.len(),
        ensures
            r == (forall|c: ChainId|
                #[trigger] chain_table(self.pending@[idx as int].raw_txs@).dom().contains(c)
                    ==> chain_state_map(self.chain_states@).dom().contains(c)),
    {
        let x = &self.pending[idx];
        proof {
            assert(xt_wf(self.pending@[idx as int]));
        }
        let mut i: usize = 0;
        while i < x.raw_txs.len()
            invariant
                self.wf(),
                idx < self.pending@.len(),
                *x == self.pending@[idx as int],
                xt_wf(*x),
                0 <= i <= x.raw_txs@.len(),
                forall|j: int|
                    0 <= j < i ==> chain_state_map(self.chain_states@).dom().contains(
                        #[trigger] x.raw_txs@[j].chain_id,
                    ),
            decreases x.raw_txs@.len() - i,
        {
            if self.find_chain_state(x.raw_txs[i].chain_id).is_none() {
                proof {
                    lemma_keyed_at(x.raw_txs@, |e: crate::xt::ChainTxs| crate::xt::chain_key(e), i as int);
                    assert(chain_table(x.raw_txs@).dom().contains(x.raw_txs@[i as int].chain_id));
                }
                return false;
            }
            i = i + 1;
        }
        proof {
            assert forall|c: ChainId| #[trigger] chain_table(x.raw_txs@).dom().contains(c) implies chain_state_map(
                self.chain_states@,
            ).dom().contains(c) by {
                let j = crate::keyed::lemma_keyed_index(
                    x.raw_txs@,
                    |e: crate::xt::ChainTxs| crate::xt::chain_key(e),
                    c,
                );
                assert(x.raw_txs@[j].chain_id == c);
            }
        }
        true
    }
}

impl DefaultCoordinator {
    /// Handles a builder poll of flashblock `req.flashblock_index` on chain
    /// `req.chain_id`. Flashblock 0 gets an empty answer. Otherwise the poll is
    /// recorded, and among the pending XTs with transactions for the chain, in
    /// canonical order: the first undecided one is locked for local simulation
    /// when it is ready, has no vote sent, and is not locked yet; else the
    /// committed XTs before it whose nonces line up are delivered, or the
    /// builder holds while an undecided XT blocks.
    pub fn handle_builder_poll(&mut self, req: &BuilderPollRequest, publisher_connected: bool) -> (plan:
        PollPlan)
        requires
            old(self).state.wf(),
            req.state_overrides matches Some(o) ==> o.wf(),
        ensures
            final(self).state.wf(),
            final(self).chain_id == old(self).chain_id,
            final(self).circ_timeout_ms == old(self).circ_timeout_ms,
            final(self).verification == old(self).verification,
            final(self).put_inbox_builder == old(self).put_inbox_builder,
            final(self).nonce_manager@ == old(self).nonce_manager@,
            req.flashblock_index == 0 ==> plan is Idle && final(self).state == old(self).state,
            final(self).state.publisher_period == old(self).state.publisher_period,
            final(self).state.current_period_id == old(self).state.current_period_id,
            final(self).state.current_superblock_num == old(self).state.current_superblock_num,
            final(self).state.origin_seq == old(self).state.origin_seq,
            final(self).state.submitted_fingerprints == old(self).state.submitted_fingerprints,
            final(self).state.pending_submissions == old(self).state.pending_submissions,
            final(self).state.mailbox_buffer == old(self).state.mailbox_buffer,
            final(self).state.chain_overlays == old(self).state.chain_overlays,
            req.flashblock_index != 0 ==> {
                &&& chain_state_recorded(
                    old(self).state.chain_states@,
                    final(self).state.chain_states@,
                    *req,
                )
                &&& exists|order: Seq<int>|
                    poll_order(order, old(self).state.pending@, req.chain_id) && poll_decision(
                        old(self).state.pending@,
                        final(self).state.pending@,
                        order,
                        req.chain_id,
                        publisher_connected,
                        chain_state_map(final(self).state.chain_states@).dom(),
                        overrides_view(req.state_overrides),
                        plan,
                    )
            },
    {
        if req.flashblock_index == 0 {
            return PollPlan::Idle;
        }
        self.state.record_chain_state(req);
        let c = req.chain_id;
        let order = self.state.poll_entries(c);
        let ghost ord = order@.map_values(|i: usize| i as int);
        let ghost p0 = self.state.pending@;
        if order.len() == 0 {
            assert(poll_decision(p0, self.state.pending@, ord, c, publisher_connected,
                chain_state_map(self.state.chain_states@).dom(), overrides_view(req.state_overrides), PollPlan::Idle));
            return PollPlan::Idle;
        }
        proof {
            assert forall|k: int| 0 <= k < order@.len() implies (#[trigger] order@[k]) < self.state.pending@.len() by {
                assert(ord[k] == order@[k] as int);
            }
        }
        if let Some(k) = self.state.find_first_undecided(&order) {
            let idx = order[k];
            let ready = if publisher_connected {
                self.state.spans_known_chains(idx)
            } else {
                true
            };
            let x = &self.state.pending[idx];
            if ready && !x.vote_sent && !crate::xt::contains_chain(&x.locked_chains, c) {
                let ghost before = self.state.pending@;
                let mut xt = self.state.pending.remove(idx);
                let ghost x0 = xt;
                crate::xt::insert_chain(&mut xt.locked_chains, c);
                let id = xt.id.clone();
                proof {
                    assert(same_but_locked(x0, xt));
                    assert(xt_wf(xt));
                }
                self.state.pending.insert(idx, xt);
                proof {
                    self.state.lemma_put_back(before, idx as int);
                    assert(ord[k as int] == idx as int);
                }
                return PollPlan::Simulate { instance_id: id };
            }
        }
        let (deliverables, blocked) = self.state.scan_deliverables(&order, c, &req.state_overrides);
        if deliverables.len() > 0 {
            PollPlan::Deliver { deliverables }
        } else if blocked {
            PollPlan::Hold
        } else {
            PollPlan::Idle
        }
    }
}

} // verus!
