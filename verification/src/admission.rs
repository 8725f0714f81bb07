//! Admission of XTs: inbound mailbox routing and the orphan buffer,
//! publisher `StartInstance`, peer-forwarded XTs, and local submissions.

use alloy::consensus::transaction::SignerRecoverable;
use alloy::consensus::{Transaction, TxEnvelope};
use vstd::prelude::*;
use vstd::string::StringSliceAdditionalSpecFns;

use crate::codec::{hex_encode, spec_hex};
use crate::coordinator::{
    buf_key, fp_key, sub_key, xt_key, FingerprintEntry, BufferedMailbox, CoordinatorState, DefaultCoordinator,
    SubmissionWaiters, XtBuilderSubmission, MAX_PENDING_XTS,
};
use crate::error::CoordinatorError;
use crate::lifecycle::undecided_count;
use crate::period::spec_accept_start_instance;
use crate::submission::{
    build_xt_request, chains_ascending, requests_match, spec_build_request, spec_encode_xt_request, spec_fingerprint,
    xt_request_fingerprint, XtRequest,
};
use crate::types::{PeriodId, SequenceNumber};
use crate::keyed::{
    keyed_map, keys_distinct, lemma_keyed_absent, lemma_keyed_at, lemma_keyed_index,
    lemma_keyed_push, lemma_keyed_remove, lemma_keyed_update,
};
use crate::submission::{request_view, requests_view, TransactionRequest};
use crate::types::{clone_byte_vecs, Address, ChainId, MailboxMessage};
use crate::util::bytes_eq;
use crate::xt::{bytes_view, chain_key, find_chain, xt_wf, ChainTxs, PendingXt, SenderNonce};

verus! {

broadcast use vstd::seq::group_seq_axioms;

/// Most raw instance ids the orphan buffer holds.
pub const MAILBOX_BUFFER_MAX_KEYS: usize = 1024;

/// Most messages the orphan buffer holds per raw instance id.
pub const MAILBOX_BUFFER_MAX_PER_KEY: usize = 256;

/// Pending XT `i` is the first one registered under raw id `raw`.
pub open spec fn first_raw_at(s: Seq<PendingXt>, raw: Seq<u8>, i: int) -> bool {
    &&& 0 <= i < s.len()
    &&& (#[trigger] s[i]).instance_id@ == raw
    &&& forall|j: int| 0 <= j < i ==> (#[trigger] s[j]).instance_id@ != raw
}

/// The index of the first pending XT registered under raw id `raw`.
pub open spec fn raw_index(s: Seq<PendingXt>, raw: Seq<u8>) -> Option<int> {
    if exists|i: int| first_raw_at(s, raw, i) {
        Some(choose|i: int| first_raw_at(s, raw, i))
    } else {
        None
    }
}

/// The buffered messages of each raw instance id.
pub open spec fn buffer_map(b: Seq<BufferedMailbox>) -> Map<Seq<u8>, BufferedMailbox> {
    keyed_map(b, |e: BufferedMailbox| buf_key(e))
}

/// The messages buffered under `raw`, empty when none are.
pub open spec fn buffered_for(b: Seq<BufferedMailbox>, raw: Seq<u8>) -> Seq<MailboxMessage> {
    if buffer_map(b).dom().contains(raw) {
        buffer_map(b)[raw].messages@
    } else {
        Seq::empty()
    }
}

/// `after` is the orphan buffer `before` once `msg` was offered to it: a
/// message for a new raw id is dropped when 1024 ids are already buffered, and
/// a message is dropped when its id already holds 256.
pub open spec fn orphan_buffered(
    before: Seq<BufferedMailbox>,
    after: Seq<BufferedMailbox>,
    msg: MailboxMessage,
) -> bool {
    let m = buffer_map(before);
    let k = msg.instance_id@;
    if !m.dom().contains(k) {
        if before.len() >= MAILBOX_BUFFER_MAX_KEYS {
            after == before
        } else {
            &&& buffer_map(after).dom() == m.dom().insert(k)
            &&& buffered_for(after, k) == seq![msg]
            &&& forall|o: Seq<u8>| o != k ==> buffered_for(after, o) == buffered_for(before, o)
        }
    } else if m[k].messages@.len() >= MAILBOX_BUFFER_MAX_PER_KEY {
        after == before
    } else {
        &&& buffer_map(after).dom() == m.dom()
        &&& buffered_for(after, k) == m[k].messages@.push(msg)
        &&& forall|o: Seq<u8>| o != k ==> buffered_for(after, o) == buffered_for(before, o)
    }
}

impl CoordinatorState {
    /// Index of the first pending XT registered under raw id `raw`.
    pub fn find_raw(&self, raw: &[u8]) -> (r: Option<usize>)
        ensures
            r matches Some(i) ==> raw_index(self.pending@, raw@) == Some(i as int),
            r is None ==> raw_index(self.pending@, raw@) is None,
    {
        let mut i: usize = 0;
        while i < self.pending.len()
            invariant
                0 <= i <= self.pending@.len(),
                forall|j: int| 0 <= j < i ==> (#[trigger] self.pending@[j]).instance_id@ != raw@,
            decreases self.pending@.len() - i,
        {
            if bytes_eq(self.pending[i].instance_id.as_slice(), raw) {
                proof {
                    assert(first_raw_at(self.pending@, raw@, i as int));
                    let q = choose|q: int| first_raw_at(self.pending@, raw@, q);
                    if q < i {
                        assert(self.pending@[q].instance_id@ != raw@);
                    }
                    if i < q {
                        assert(self.pending@[i as int].instance_id@ != raw@);
                    }
                }
                return Some(i);
            }
            i = i + 1;
        }
        None
    }

    /// Index of the buffer bucket for raw id `raw`.
    fn find_bucket(&self, raw: &[u8]) -> (r: Option<usize>)
        requires
            self.wf(),
        ensures
            r matches Some(i) ==> i < self.mailbox_buffer@.len() && self.mailbox_buffer@[i as int].instance_id@
                == raw@ && buffer_map(self.mailbox_buffer@).dom().contains(raw@) && buffer_map(
                self.mailbox_buffer@,
            )[raw@] == self.mailbox_buffer@[i as int],
            r is None ==> !buffer_map(self.mailbox_buffer@).dom().contains(raw@),
    {
        let mut i: usize = 0;
        while i < self.mailbox_buffer.len()
            invariant
                self.wf(),
                0 <= i <= self.mailbox_buffer@.len(),
                forall|j: int|
                    0 <= j < i ==> (#[trigger] self.mailbox_buffer@[j]).instance_id@ != raw@,
            decreases self.mailbox_buffer@.len() - i,
        {
            if bytes_eq(self.mailbox_buffer[i].instance_id.as_slice(), raw) {
                proof {
                    lemma_keyed_at(self.mailbox_buffer@, |e: BufferedMailbox| buf_key(e), i as int);
                }
                return Some(i);
            }
            i = i + 1;
        }
        proof {
            lemma_keyed_absent(self.mailbox_buffer@, |e: BufferedMailbox| buf_key(e), raw@);
        }
        None
    }

    /// Buffers a mailbox message whose XT is not registered yet. A message for
    /// a new raw id is dropped when 1024 ids are already buffered; a message is
    /// dropped when its id already holds 256.
    pub fn buffer_orphan_mailbox(&mut self, msg: MailboxMessage)
        requires
            old(self).wf(),
        ensures
            final(self).wf(),
            final(self).pending == old(self).pending,
            final(self).publisher_period == old(self).publisher_period,
            final(self).origin_seq == old(self).origin_seq,
            final(self).submitted_fingerprints == old(self).submitted_fingerprints,
            final(self).pending_submissions == old(self).pending_submissions,
            orphan_buffered(old(self).mailbox_buffer@, final(self).mailbox_buffer@, msg),
    {
        let ghost before = self.mailbox_buffer@;
        match self.find_bucket(msg.instance_id.as_slice()) {
            None => {
                if self.mailbox_buffer.len() >= MAILBOX_BUFFER_MAX_KEYS {
                    return;
                }
                let raw = crate::util::copy_bytes(msg.instance_id.as_slice());
                let mut messages: Vec<MailboxMessage> = Vec::new();
                messages.push(msg);
                let bucket = BufferedMailbox { instance_id: raw, messages };
                proof {
                    lemma_keyed_push(before, |e: BufferedMailbox| buf_key(e), bucket);
                }
                self.mailbox_buffer.push(bucket);
                proof {
                    assert(buffer_map(self.mailbox_buffer@) =~= buffer_map(before).insert(
                        bucket.instance_id@,
                        bucket,
                    ));
                    assert(bucket.messages@ =~= seq![msg]);
                    assert(buffered_for(self.mailbox_buffer@, msg.instance_id@) == seq![msg]);
                    assert(buffer_map(self.mailbox_buffer@).dom() =~= buffer_map(before).dom().insert(
                        msg.instance_id@,
                    ));
                    assert forall|o: Seq<u8>| o != msg.instance_id@ implies buffered_for(
                        self.mailbox_buffer@,
                        o,
                    ) == buffered_for(before, o) by {}
                }
            },
            Some(i) => {
                if self.mailbox_buffer[i].messages.len() >= MAILBOX_BUFFER_MAX_PER_KEY {
                    return;
                }
                let mut bucket = self.mailbox_buffer.remove(i);
                bucket.messages.push(msg);
                self.mailbox_buffer.insert(i, bucket);
                proof {
                    assert(self.mailbox_buffer@ =~= before.update(i as int, bucket));
                    lemma_keyed_update(before, |e: BufferedMailbox| buf_key(e), i as int, bucket);
                    assert(buffer_map(self.mailbox_buffer@) =~= buffer_map(before).insert(
                        bucket.instance_id@,
                        bucket,
                    ));
                    assert(buffer_map(self.mailbox_buffer@).dom() =~= buffer_map(before).dom());
                    assert forall|o: Seq<u8>| o != msg.instance_id@ implies buffered_for(
                        self.mailbox_buffer@,
                        o,
                    ) == buffered_for(before, o) by {}
                }
            },
        }
    }

    /// Removes and returns the messages buffered under raw id `raw` (empty when
    /// none are).
    pub fn drain_mailbox_buffer(&mut self, raw: &[u8]) -> (out: Vec<MailboxMessage>)
        requires
            old(self).wf(),
        ensures
            final(self).wf(),
            final(self).pending == old(self).pending,
            final(self).publisher_period == old(self).publisher_period,
            final(self).origin_seq == old(self).origin_seq,
            final(self).submitted_fingerprints == old(self).submitted_fingerprints,
            final(self).pending_submissions == old(self).pending_submissions,
            out@ == buffered_for(old(self).mailbox_buffer@, raw@),
            buffer_map(final(self).mailbox_buffer@) == buffer_map(old(self).mailbox_buffer@).remove(
                raw@,
            ),
    {
        let ghost before = self.mailbox_buffer@;
        match self.find_bucket(raw) {
            None => {
                proof {
                    assert(buffer_map(before).remove(raw@) =~= buffer_map(before));
                }
                Vec::new()
            },
            Some(i) => {
                let bucket = self.mailbox_buffer.remove(i);
                proof {
                    lemma_keyed_remove(before, |e: BufferedMailbox| buf_key(e), i as int);
                }
                bucket.messages
            },
        }
    }
}

// ---------------------------------------------------------------------------
// Per-chain transaction tables.
// ---------------------------------------------------------------------------

/// A chain table viewed as a map from chain to its transactions.
pub open spec fn chain_table(t: Seq<ChainTxs>) -> Map<ChainId, Seq<Seq<u8>>> {
    Map::new(
        |c: ChainId| keyed_map(t, |e: ChainTxs| chain_key(e)).dom().contains(c),
        |c: ChainId| bytes_view(keyed_map(t, |e: ChainTxs| chain_key(e))[c].txs@),
    )
}

/// The transactions of each chain, gathered from requests in order; a
/// request without transactions contributes nothing.
pub open spec fn merged_requests(reqs: Seq<(u64, Seq<Seq<u8>>)>) -> Map<ChainId, Seq<Seq<u8>>>
    decreases reqs.len(),
{
    if reqs.len() == 0 {
        Map::empty()
    } else {
        let m = merged_requests(reqs.drop_last());
        let c = ChainId(reqs.last().0);
        let txs = reqs.last().1;
        if txs.len() == 0 {
            m
        } else if m.dom().contains(c) {
            m.insert(c, m[c] + txs)
        } else {
            m.insert(c, txs)
        }
    }
}

/// Gathers the transactions of each chain from a list of requests.
pub fn merge_requests(reqs: &Vec<TransactionRequest>) -> (t: Vec<ChainTxs>)
    ensures
        keys_distinct(t@, |e: ChainTxs| chain_key(e)),
        chain_table(t@) == merged_requests(requests_view(reqs@)),
        forall|i: int| 0 <= i < t@.len() ==> (#[trigger] t@[i]).txs@.len() > 0,
{
    let mut t: Vec<ChainTxs> = Vec::new();
    proof {
        crate::keyed::lemma_keyed_empty(|e: ChainTxs| chain_key(e));
        assert(chain_table(t@) =~= Map::<ChainId, Seq<Seq<u8>>>::empty());
    }
    let mut k: usize = 0;
    while k < reqs.len()
        invariant
            0 <= k <= reqs@.len(),
            keys_distinct(t@, |e: ChainTxs| chain_key(e)),
            chain_table(t@) == merged_requests(requests_view(reqs@).take(k as int)),
            forall|i: int| 0 <= i < t@.len() ==> (#[trigger] t@[i]).txs@.len() > 0,
        decreases reqs@.len() - k,
    {
        let ghost before = t@;
        let ghost rv = requests_view(reqs@).take(k + 1);
        proof {
            assert(rv.drop_last() =~= requests_view(reqs@).take(k as int));
            assert(rv.last() == request_view(reqs@[k as int]));
        }
        let r = &reqs[k];
        if r.transaction.len() > 0 {
            let c = ChainId(r.chain_id);
            let added = clone_byte_vecs(&r.transaction);
            proof {
                assert(bytes_view(added@) =~= bytes_view(r.transaction@));
            }
            match find_chain(&t, c) {
                Some(i) => {
                    let mut e = t.remove(i);
                    let ghost old_txs = e.txs@;
                    let mut more = added;
                    e.txs.append(&mut more);
                    proof {
                        assert(bytes_view(e.txs@) =~= bytes_view(old_txs) + bytes_view(
                            r.transaction@,
                        ));
                    }
                    t.insert(i, e);
                    proof {
                        assert(t@ =~= before.update(i as int, e));
                        lemma_keyed_at(before, |e: ChainTxs| chain_key(e), i as int);
                        lemma_keyed_update(before, |e: ChainTxs| chain_key(e), i as int, e);
                        assert(chain_table(t@) =~= merged_requests(rv));
                    }
                },
                None => {
                    let e = ChainTxs { chain_id: c, txs: added };
                    proof {
                        lemma_keyed_absent(before, |e: ChainTxs| chain_key(e), c);
                        lemma_keyed_push(before, |e: ChainTxs| chain_key(e), e);
                    }
                    t.push(e);
                    proof {
                        assert(chain_table(t@) =~= merged_requests(rv));
                    }
                },
            }
        } else {
            proof {
                assert(chain_table(t@) =~= merged_requests(rv));
            }
        }
        k = k + 1;
    }
    proof {
        assert(requests_view(reqs@).take(reqs@.len() as int) =~= requests_view(reqs@));
    }
    t
}

// ---------------------------------------------------------------------------
// Sender and nonce of signed transactions (alloy).
// ---------------------------------------------------------------------------

/// The name for what `decode_sender_nonce` returns on raw transaction bytes:
/// the recovered signer and the nonce of an RLP-encoded signed transaction,
/// or `None` when decoding or signature recovery fails.
pub uninterp spec fn spec_decode_sender_nonce(raw_tx: Seq<u8>) -> Option<(Address, u64)>;

/// Decodes an RLP-encoded signed transaction with `alloy` (`TxEnvelope`
/// decoding, `SignerRecoverable::recover_signer`, `Transaction::nonce`) and
/// returns its signer and nonce.
#[verifier::external_body]
pub fn decode_sender_nonce(raw_tx: &[u8]) -> (r: Option<(Address, u64)>)
    ensures
        r == spec_decode_sender_nonce(raw_tx@),
{
    let signed: TxEnvelope = alloy::rlp::Decodable::decode(&mut &raw_tx[..]).ok()?;
    let from = signed.recover_signer().ok()?;
    Some((from.into_array(), signed.nonce()))
}

/// The sender/nonce entry of chain `c`, decoded from its first transaction.
pub open spec fn sender_nonce_for(table: Map<ChainId, Seq<Seq<u8>>>, c: ChainId) -> Option<
    (Address, u64),
> {
    if table.dom().contains(c) && table[c].len() > 0 {
        spec_decode_sender_nonce(table[c][0])
    } else {
        None
    }
}

/// The key of a sender/nonce entry.
pub open spec fn sn_key(e: SenderNonce) -> ChainId {
    e.chain_id
}

/// Sender/nonce entries viewed as a map from chain.
pub open spec fn sender_nonce_map(s: Seq<SenderNonce>) -> Map<ChainId, (Address, u64)> {
    Map::new(
        |c: ChainId| keyed_map(s, |e: SenderNonce| sn_key(e)).dom().contains(c),
        |c: ChainId|
            (
                keyed_map(s, |e: SenderNonce| sn_key(e))[c].sender,
                keyed_map(s, |e: SenderNonce| sn_key(e))[c].nonce,
            ),
    )
}

/// Builds the sender/nonce cache from each chain's first transaction; chains
/// whose first transaction does not decode are left out.
pub fn build_sender_nonce_cache(txs: &Vec<ChainTxs>) -> (out: Vec<SenderNonce>)
    requires
        keys_distinct(txs@, |e: ChainTxs| chain_key(e)),
    ensures
        keys_distinct(out@, |e: SenderNonce| sn_key(e)),
        forall|c: ChainId|
            #![trigger sender_nonce_map(out@).dom().contains(c)]
            sender_nonce_map(out@).dom().contains(c) == (sender_nonce_for(chain_table(txs@), c) is Some),
        forall|c: ChainId|
            #![trigger sender_nonce_map(out@)[c]]
            sender_nonce_map(out@).dom().contains(c) ==> sender_nonce_map(out@)[c] == sender_nonce_for(
                chain_table(txs@),
                c,
            ).unwrap(),
{
    let mut out: Vec<SenderNonce> = Vec::new();
    proof {
        crate::keyed::lemma_keyed_empty(|e: SenderNonce| sn_key(e));
    }
    let mut k: usize = 0;
    while k < txs.len()
        invariant
            0 <= k <= txs@.len(),
            keys_distinct(txs@, |e: ChainTxs| chain_key(e)),
            keys_distinct(out@, |e: SenderNonce| sn_key(e)),
            forall|c: ChainId|
                #![trigger sender_nonce_map(out@).dom().contains(c)]
                sender_nonce_map(out@).dom().contains(c) <==> exists|m: int|
                    0 <= m < k && (#[trigger] txs@[m]).chain_id == c && txs@[m].txs@.len() > 0
                        && spec_decode_sender_nonce(txs@[m].txs@[0]@) is Some,
            forall|c: ChainId|
                #![trigger sender_nonce_map(out@)[c]]
                sender_nonce_map(out@).dom().contains(c) ==> exists|m: int|
                    0 <= m < k && (#[trigger] txs@[m]).chain_id == c && txs@[m].txs@.len() > 0
                        && spec_decode_sender_nonce(txs@[m].txs@[0]@) == Some(sender_nonce_map(out@)[c]),
        decreases txs@.len() - k,
    {
        let c = txs[k].chain_id;
        if txs[k].txs.len() > 0 {
            match decode_sender_nonce(txs[k].txs[0].as_slice()) {
                Some((sender, nonce)) => {
                    let e = SenderNonce { chain_id: c, sender, nonce };
                    let ghost before = out@;
                    proof {
                        assert forall|i: int| 0 <= i < before.len() implies #[trigger] sn_key(
                            before[i],
                        ) != c by {
                            lemma_keyed_at(before, |e: SenderNonce| sn_key(e), i);
                            assert(sender_nonce_map(before).dom().contains(sn_key(before[i])));
                            let m = choose|m: int|
                                0 <= m < k && (#[trigger] txs@[m]).chain_id == sn_key(before[i])
                                    && txs@[m].txs@.len() > 0 && spec_decode_sender_nonce(
                                    txs@[m].txs@[0]@,
                                ) is Some;
                            if sn_key(before[i]) == c {
                                crate::keyed::lemma_keyed_same(
                                    txs@,
                                    |e: ChainTxs| chain_key(e),
                                    m,
                                    k as int,
                                );
                            }
                        }
                        lemma_keyed_absent(before, |e: SenderNonce| sn_key(e), c);
                        lemma_keyed_push(before, |e: SenderNonce| sn_key(e), e);
                    }
                    out.push(e);
                    proof {
                        assert forall|x: ChainId|
                            #![trigger sender_nonce_map(out@).dom().contains(x)]
                            sender_nonce_map(out@).dom().contains(x) <==> exists|m: int|
                                0 <= m < k + 1 && (#[trigger] txs@[m]).chain_id == x
                                    && txs@[m].txs@.len() > 0 && spec_decode_sender_nonce(
                                    txs@[m].txs@[0]@,
                                ) is Some by {
                            if x == c {
                                assert(txs@[k as int].chain_id == x);
                            } else if sender_nonce_map(out@).dom().contains(x) {
                                assert(sender_nonce_map(before).dom().contains(x));
                            } else {
                                assert(!sender_nonce_map(before).dom().contains(x));
                            }
                        }
                        assert forall|x: ChainId|
                            #![trigger sender_nonce_map(out@)[x]]
                            sender_nonce_map(out@).dom().contains(x) implies exists|m: int|
                                0 <= m < k + 1 && (#[trigger] txs@[m]).chain_id == x
                                    && txs@[m].txs@.len() > 0 && spec_decode_sender_nonce(
                                    txs@[m].txs@[0]@,
                                ) == Some(sender_nonce_map(out@)[x]) by {
                            if x == c {
                                assert(txs@[k as int].chain_id == x);
                            } else {
                                assert(sender_nonce_map(before).dom().contains(x));
                                assert(sender_nonce_map(out@)[x] == sender_nonce_map(before)[x]);
                            }
                        }
                    }
                },
                None => {},
            }
        }
        k = k + 1;
    }
    proof {
        assert forall|c: ChainId| #[trigger] sender_nonce_map(out@).dom().contains(c) == (
        sender_nonce_for(chain_table(txs@), c) is Some) by {
            if chain_table(txs@).dom().contains(c) {
                let m = lemma_keyed_index(txs@, |e: ChainTxs| chain_key(e), c);
            }
            if sender_nonce_map(out@).dom().contains(c) {
                let m = choose|m: int|
                    0 <= m < txs@.len() && (#[trigger] txs@[m]).chain_id == c && txs@[m].txs@.len()
                        > 0 && spec_decode_sender_nonce(txs@[m].txs@[0]@) is Some;
                lemma_keyed_at(txs@, |e: ChainTxs| chain_key(e), m);
            }
        }
        assert forall|c: ChainId| #[trigger]
            sender_nonce_map(out@).dom().contains(c) implies sender_nonce_map(out@)[c]
            == sender_nonce_for(chain_table(txs@), c).unwrap() by {
            let m = choose|m: int|
                0 <= m < txs@.len() && (#[trigger] txs@[m]).chain_id == c && txs@[m].txs@.len() > 0
                    && spec_decode_sender_nonce(txs@[m].txs@[0]@) == Some(sender_nonce_map(out@)[c]);
            lemma_keyed_at(txs@, |e: ChainTxs| chain_key(e), m);
        }
    }
    out
}

// ---------------------------------------------------------------------------
// Registration.
// ---------------------------------------------------------------------------

/// The waiter tickets registered for fingerprint `fp`, empty when none are.
pub open spec fn waiters_for(s: Seq<SubmissionWaiters>, fp: Seq<char>) -> Seq<u64> {
    let m = keyed_map(s, |e: SubmissionWaiters| sub_key(e));
    if m.dom().contains(fp) {
        m[fp].waiters@
    } else {
        Seq::empty()
    }
}

/// The waiter table viewed as a map from fingerprint to tickets.
pub open spec fn waiter_map(s: Seq<SubmissionWaiters>) -> Map<Seq<char>, Seq<u64>> {
    Map::new(
        |fp: Seq<char>| keyed_map(s, |e: SubmissionWaiters| sub_key(e)).dom().contains(fp),
        |fp: Seq<char>| keyed_map(s, |e: SubmissionWaiters| sub_key(e))[fp].waiters@,
    )
}

proof fn lemma_undecided_le(s: Seq<PendingXt>)
    ensures
        undecided_count(s) <= s.len(),
    decreases s.len(),
{
    if s.len() > 0 {
        lemma_undecided_le(s.drop_last());
    }
}

impl CoordinatorState {
    /// Number of undecided XTs.
    pub fn count_undecided(&self) -> (n: usize)
        ensures
            n == undecided_count(self.pending@),
    {
        let mut n: usize = 0;
        let mut i: usize = 0;
        while i < self.pending.len()
            invariant
                0 <= i <= self.pending@.len(),
                n == undecided_count(self.pending@.take(i as int)),
            decreases self.pending@.len() - i,
        {
            proof {
                assert(self.pending@.take(i + 1).drop_last() =~= self.pending@.take(i as int));
                lemma_undecided_le(self.pending@.take(i as int));
            }
            if self.pending[i].decision.is_none() {
                n = n + 1;
            }
            i = i + 1;
        }
        proof {
            assert(self.pending@.take(self.pending@.len() as int) =~= self.pending@);
        }
        n
    }

    /// Removes the callers waiting on fingerprint `fingerprint` and returns
    /// their tickets, for the caller to answer.
    pub fn resolve_pending_submission(&mut self, fingerprint: &str) -> (tickets: Vec<u64>)
        requires
            old(self).wf(),
        ensures
            final(self).wf(),
            tickets@ == waiters_for(old(self).pending_submissions@, fingerprint@),
            waiter_map(final(self).pending_submissions@) == waiter_map(
                old(self).pending_submissions@,
            ).remove(fingerprint@),
            final(self).pending == old(self).pending,
            final(self).publisher_period == old(self).publisher_period,
            final(self).origin_seq == old(self).origin_seq,
            final(self).submitted_fingerprints == old(self).submitted_fingerprints,
            final(self).mailbox_buffer == old(self).mailbox_buffer,
    {
        let ghost before = self.pending_submissions@;
        let mut i: usize = 0;
        while i < self.pending_submissions.len()
            invariant
                *self == *old(self),
                self.wf(),
                before == self.pending_submissions@,
                0 <= i <= before.len(),
                forall|j: int| 0 <= j < i ==> (#[trigger] before[j]).fingerprint@ != fingerprint@,
            decreases before.len() - i,
        {
            if crate::util::str_eq(self.pending_submissions[i].fingerprint.as_str(), fingerprint) {
                let entry = self.pending_submissions.remove(i);
                proof {
                    lemma_keyed_at(before, |e: SubmissionWaiters| sub_key(e), i as int);
                    lemma_keyed_remove(before, |e: SubmissionWaiters| sub_key(e), i as int);
                    assert(waiter_map(self.pending_submissions@) =~= waiter_map(before).remove(
                        fingerprint@,
                    ));
                }
                return entry.waiters;
            }
            i = i + 1;
        }
        proof {
            lemma_keyed_absent(before, |e: SubmissionWaiters| sub_key(e), fingerprint@);
            assert(waiter_map(before).remove(fingerprint@) =~= waiter_map(before));
        }
        Vec::new()
    }

    /// Registers `xt` (whose id is new) and moves into its pending mailbox the
    /// messages buffered under its raw id.
    pub fn register_xt(&mut self, xt: PendingXt)
        requires
            old(self).wf(),
            xt_wf(xt),
            !old(self).pending_map().dom().contains(xt.id@),
        ensures
            final(self).wf(),
            final(self).pending@.len() == old(self).pending@.len() + 1,
            final(self).pending@.drop_last() == old(self).pending@,
            same_but_mailbox(xt, final(self).pending@.last()),
            final(self).pending@.last().pending_mailbox@ == xt.pending_mailbox@ + buffered_for(
                old(self).mailbox_buffer@,
                xt.instance_id@,
            ),
            final(self).pending_map() == old(self).pending_map().insert(
                xt.id@,
                final(self).pending@.last(),
            ),
            buffer_map(final(self).mailbox_buffer@) == buffer_map(
                old(self).mailbox_buffer@,
            ).remove(xt.instance_id@),
            final(self).publisher_period == old(self).publisher_period,
            final(self).origin_seq == old(self).origin_seq,
            final(self).submitted_fingerprints == old(self).submitted_fingerprints,
            final(self).pending_submissions == old(self).pending_submissions,
    {
        let mut xt = xt;
        let ghost x0 = xt;
        let mut buffered = self.drain_mailbox_buffer(xt.instance_id.as_slice());
        xt.pending_mailbox.append(&mut buffered);
        proof {
            assert(same_but_mailbox(x0, xt));
            assert(xt_key(xt) == xt_key(x0));
            lemma_keyed_push(self.pending@, |x: PendingXt| xt_key(x), xt);
        }
        self.pending.push(xt);
        proof {
            assert(self.pending@.drop_last() =~= old(self).pending@);
        }
    }
}

/// A publisher `StartInstance`: the raw instance id, its period and sequence,
/// and the request.
#[derive(Debug)]
pub struct StartInstance {
    pub instance_id: Vec<u8>,
    pub period_id: u64,
    pub sequence_number: u64,
    pub xt_request: Option<XtRequest>,
}

/// What the caller does after a `StartInstance`.
#[derive(Debug)]
pub enum StartInstanceOutcome {
    /// The instance is registered. The caller hands `local_submission` to the
    /// builder, then answers the waiters of `fingerprint` with `instance_id`
    /// and simulates locally when `process_locally`. If the builder refuses,
    /// the caller removes the XT, answers the waiters with the error, and sends
    /// the abort vote.
    Registered {
        instance_id: String,
        fingerprint: String,
        local_submission: Option<XtBuilderSubmission>,
        process_locally: bool,
    },
    /// The instance is refused: `waiters` get `error`, and an abort vote for
    /// `raw_instance_id` goes to the publisher.
    Rejected { waiters: Vec<u64>, error: String, raw_instance_id: Vec<u8> },
    /// The call fails with `error`; `waiters` (possibly none) get its message.
    Failed { error: CoordinatorError, waiters: Vec<u64> },
}

/// The fingerprint of a request.
pub open spec fn request_fingerprint(req: XtRequest) -> Seq<char> {
    spec_fingerprint(spec_encode_xt_request(requests_view(req.transaction_requests@)))
}

/// The XT registered for a `StartInstance` before buffered messages join it.
pub open spec fn started_xt(
    xt: PendingXt,
    msg: StartInstance,
    own: ChainId,
    now: u64,
) -> bool {
    let table = merged_requests(requests_view(msg.xt_request.unwrap().transaction_requests@));
    &&& xt.id@ == spec_hex(msg.instance_id@)
    &&& xt.instance_id@ == msg.instance_id@
    &&& xt.period_id == PeriodId(msg.period_id)
    &&& xt.sequence_num == SequenceNumber(msg.sequence_number)
    &&& xt.origin_chain is None
    &&& xt.origin_seq == SequenceNumber(0)
    &&& chain_table(xt.raw_txs@) == table
    &&& keys_distinct(xt.sender_nonces@, |e: SenderNonce| sn_key(e))
    &&& forall|c: ChainId|
        #![trigger sender_nonce_map(xt.sender_nonces@).dom().contains(c)]
        sender_nonce_map(xt.sender_nonces@).dom().contains(c) == (sender_nonce_for(table, c) is Some)
    &&& forall|c: ChainId|
        #![trigger sender_nonce_map(xt.sender_nonces@)[c]]
        sender_nonce_map(xt.sender_nonces@).dom().contains(c) ==> sender_nonce_map(
            xt.sender_nonces@,
        )[c] == sender_nonce_for(table, c).unwrap()
    &&& xt.locked_chains@ == (if table.dom().contains(own) {
        seq![own]
    } else {
        Seq::empty()
    })
    &&& xt.created_at == now
    &&& xt.decision is None
    &&& xt.decided_at is None
    &&& xt.confirmed_at is None
    &&& xt.simulated_at is None
    &&& !xt.vote_sent
    &&& xt.local_vote is None
    &&& xt.peer_votes@.len() == 0
    &&& xt.dependencies@.len() == 0
    &&& xt.fulfilled_deps@.len() == 0
    &&& xt.outbound_messages@.len() == 0
    &&& xt.sent_mailbox@.len() == 0
}

/// The state after `msg` was handled; `out` is what the caller is told.
pub open spec fn start_instance_result(
    old_s: CoordinatorState,
    new_s: CoordinatorState,
    msg: StartInstance,
    own: ChainId,
    now: u64,
    out: StartInstanceOutcome,
) -> bool {
    match msg.xt_request {
        None => {
            &&& out matches StartInstanceOutcome::Failed { error: CoordinatorError::Other(m), waiters }
                && m@ == "missing xt_request"@ && waiters@.len() == 0
            &&& new_s == old_s
        },
        Some(req) => {
            let fp = request_fingerprint(req);
            let id = spec_hex(msg.instance_id@);
            let accepted = spec_accept_start_instance(
                old_s.publisher_period,
                PeriodId(msg.period_id),
                SequenceNumber(msg.sequence_number),
            );
            let table = merged_requests(requests_view(req.transaction_requests@));
            let answered = {
                &&& waiter_map(new_s.pending_submissions@) == waiter_map(
                    old_s.pending_submissions@,
                ).remove(fp)
                &&& new_s.pending == old_s.pending
                &&& new_s.publisher_period == old_s.publisher_period
                &&& new_s.origin_seq == old_s.origin_seq
                &&& new_s.submitted_fingerprints == old_s.submitted_fingerprints
                &&& new_s.mailbox_buffer == old_s.mailbox_buffer
            };
            if msg.instance_id@.len() != 32 {
                &&& out matches StartInstanceOutcome::Rejected { waiters, error, raw_instance_id }
                    && waiters@ == waiters_for(old_s.pending_submissions@, fp) && error@
                    == "invalid start-instance: instance id must be 32 bytes"@
                    && raw_instance_id@ == msg.instance_id@
                &&& answered
            } else if old_s.pending_map().dom().contains(id) {
                &&& out matches StartInstanceOutcome::Failed {
                    error: CoordinatorError::InstanceAlreadyPending(x),
                    waiters,
                } && x@ == id && waiters@.len() == 0
                &&& new_s == old_s
            } else if undecided_count(old_s.pending@) >= MAX_PENDING_XTS {
                &&& out matches StartInstanceOutcome::Failed {
                    error: CoordinatorError::TooManyPendingInstances(n),
                    waiters,
                } && n == MAX_PENDING_XTS && waiters@ == waiters_for(
                    old_s.pending_submissions@,
                    fp,
                )
                &&& answered
            } else if accepted.1 is Err {
                &&& out matches StartInstanceOutcome::Rejected { waiters, error, raw_instance_id }
                    && waiters@ == waiters_for(old_s.pending_submissions@, fp) && error@
                    == accepted.1->Err_0.spec_message() && raw_instance_id@ == msg.instance_id@
                &&& answered
            } else {
                &&& out matches StartInstanceOutcome::Registered {
                    instance_id,
                    fingerprint,
                    local_submission,
                    process_locally,
                } && instance_id@ == id && fingerprint@ == fp && process_locally
                    == table.dom().contains(own) && (local_submission is Some
                    <==> table.dom().contains(own)) && (local_submission matches Some(sub)
                    ==> sub.instance_id@ == id && sub.period_id == msg.period_id
                    && sub.sequence_number == msg.sequence_number && bytes_view(
                    sub.transactions@,
                ) == table[own])
                &&& new_s.pending@.len() == old_s.pending@.len() + 1
                &&& new_s.pending@.drop_last() == old_s.pending@
                &&& started_xt(new_s.pending@.last(), msg, own, now)
                &&& new_s.pending@.last().pending_mailbox@ == buffered_for(
                    old_s.mailbox_buffer@,
                    msg.instance_id@,
                )
                &&& new_s.pending_map() == old_s.pending_map().insert(id, new_s.pending@.last())
                &&& buffer_map(new_s.mailbox_buffer@) == buffer_map(old_s.mailbox_buffer@).remove(
                    msg.instance_id@,
                )
                &&& new_s.publisher_period == accepted.0
                &&& new_s.origin_seq == old_s.origin_seq
                &&& new_s.submitted_fingerprints == old_s.submitted_fingerprints
                &&& new_s.pending_submissions == old_s.pending_submissions
            }
        },
    }
}

/// `t` without the chains that carry no transactions.
pub open spec fn nonempty_table(t: Map<ChainId, Seq<Seq<u8>>>) -> Map<ChainId, Seq<Seq<u8>>> {
    Map::new(|c: ChainId| t.dom().contains(c) && t[c].len() > 0, |c: ChainId| t[c])
}

/// Copies the chains that carry transactions.
pub fn keep_nonempty(txs: &Vec<ChainTxs>) -> (out: Vec<ChainTxs>)
    requires
        keys_distinct(txs@, |e: ChainTxs| chain_key(e)),
    ensures
        keys_distinct(out@, |e: ChainTxs| chain_key(e)),
        forall|i: int| 0 <= i < out@.len() ==> (#[trigger] out@[i]).txs@.len() > 0,
        chain_table(out@) == nonempty_table(chain_table(txs@)),
{
    let mut out: Vec<ChainTxs> = Vec::new();
    proof {
        crate::keyed::lemma_keyed_empty(|e: ChainTxs| chain_key(e));
    }
    let mut k: usize = 0;
    while k < txs.len()
        invariant
            0 <= k <= txs@.len(),
            keys_distinct(txs@, |e: ChainTxs| chain_key(e)),
            keys_distinct(out@, |e: ChainTxs| chain_key(e)),
            forall|i: int| 0 <= i < out@.len() ==> (#[trigger] out@[i]).txs@.len() > 0,
            forall|c: ChainId|
                #![trigger chain_table(out@).dom().contains(c)]
                chain_table(out@).dom().contains(c) <==> exists|m: int|
                    0 <= m < k && (#[trigger] txs@[m]).chain_id == c && txs@[m].txs@.len() > 0,
            forall|c: ChainId|
                #![trigger chain_table(out@)[c]]
                chain_table(out@).dom().contains(c) ==> exists|m: int|
                    0 <= m < k && (#[trigger] txs@[m]).chain_id == c && bytes_view(txs@[m].txs@)
                        == chain_table(out@)[c],
        decreases txs@.len() - k,
    {
        if txs[k].txs.len() > 0 {
            let c = txs[k].chain_id;
            let e = ChainTxs { chain_id: c, txs: clone_byte_vecs(&txs[k].txs) };
            let ghost before = out@;
            proof {
                assert(bytes_view(e.txs@) =~= bytes_view(txs@[k as int].txs@));
                assert forall|i: int| 0 <= i < before.len() implies #[trigger] chain_key(before[i])
                    != c by {
                    lemma_keyed_at(before, |e: ChainTxs| chain_key(e), i);
                    assert(chain_table(before).dom().contains(chain_key(before[i])));
                    let m = choose|m: int|
                        0 <= m < k && (#[trigger] txs@[m]).chain_id == chain_key(before[i])
                            && txs@[m].txs@.len() > 0;
                    if chain_key(before[i]) == c {
                        crate::keyed::lemma_keyed_same(txs@, |e: ChainTxs| chain_key(e), m, k as int);
                    }
                }
                lemma_keyed_absent(before, |e: ChainTxs| chain_key(e), c);
                lemma_keyed_push(before, |e: ChainTxs| chain_key(e), e);
            }
            out.push(e);
            proof {
                assert forall|x: ChainId|
                    #![trigger chain_table(out@).dom().contains(x)]
                    chain_table(out@).dom().contains(x) <==> exists|m: int|
                        0 <= m < k + 1 && (#[trigger] txs@[m]).chain_id == x && txs@[m].txs@.len()
                            > 0 by {
                    if x == c {
                        assert(txs@[k as int].chain_id == x);
                    } else if chain_table(out@).dom().contains(x) {
                        assert(chain_table(before).dom().contains(x));
                    } else {
                        assert(!chain_table(before).dom().contains(x));
                    }
                }
                assert forall|x: ChainId|
                    #![trigger chain_table(out@)[x]]
                    chain_table(out@).dom().contains(x) implies exists|m: int|
                        0 <= m < k + 1 && (#[trigger] txs@[m]).chain_id == x && bytes_view(
                            txs@[m].txs@,
                        ) == chain_table(out@)[x] by {
                    if x == c {
                        assert(txs@[k as int].chain_id == x);
                    } else {
                        assert(chain_table(before).dom().contains(x));
                        assert(chain_table(out@)[x] == chain_table(before)[x]);
                    }
                }
            }
        }
        k = k + 1;
    }
    proof {
        let want = nonempty_table(chain_table(txs@));
        assert forall|c: ChainId| #[trigger] chain_table(out@).dom().contains(c) == want.dom().contains(c) by {
            if chain_table(txs@).dom().contains(c) {
                let m = lemma_keyed_index(txs@, |e: ChainTxs| chain_key(e), c);
            }
            if chain_table(out@).dom().contains(c) {
                let m = choose|m: int|
                    0 <= m < txs@.len() && (#[trigger] txs@[m]).chain_id == c && txs@[m].txs@.len() > 0;
                lemma_keyed_at(txs@, |e: ChainTxs| chain_key(e), m);
            }
        }
        assert forall|c: ChainId| #[trigger] chain_table(out@).dom().contains(c) implies chain_table(
            out@,
        )[c] == want[c] by {
            let m = choose|m: int|
                0 <= m < txs@.len() && (#[trigger] txs@[m]).chain_id == c && bytes_view(txs@[m].txs@)
                    == chain_table(out@)[c];
            lemma_keyed_at(txs@, |e: ChainTxs| chain_key(e), m);
        }
        assert(chain_table(out@) =~= want);
    }
    out
}

/// `b` is `a` with only its pending mailbox changed.
pub open spec fn same_but_mailbox(a: PendingXt, b: PendingXt) -> bool {
    b == PendingXt { pending_mailbox: b.pending_mailbox, ..a }
}

/// An XT registered from a peer or a local submission, before buffered
/// messages join it.
pub open spec fn registered_xt(
    xt: PendingXt,
    id: Seq<char>,
    raw: Seq<u8>,
    table: Map<ChainId, Seq<Seq<u8>>>,
    origin_chain: ChainId,
    origin_seq: SequenceNumber,
    locked: Seq<ChainId>,
    now: u64,
) -> bool {
    &&& xt.id@ == id
    &&& xt.instance_id@ == raw
    &&& xt.period_id == PeriodId(0)
    &&& xt.sequence_num == SequenceNumber(0)
    &&& xt.origin_chain == Some(origin_chain)
    &&& xt.origin_seq == origin_seq
    &&& chain_table(xt.raw_txs@) == table
    &&& xt.sender_nonces@.len() == 0
    &&& xt.locked_chains@ == locked
    &&& xt.created_at == now
    &&& xt.decision is None
    &&& xt.decided_at is None
    &&& xt.confirmed_at is None
    &&& xt.simulated_at is None
    &&& !xt.vote_sent
    &&& xt.local_vote is None
    &&& xt.peer_votes@.len() == 0
    &&& xt.dependencies@.len() == 0
    &&& xt.fulfilled_deps@.len() == 0
    &&& xt.outbound_messages@.len() == 0
    &&& xt.sent_mailbox@.len() == 0
}

/// Copies a chain table.
pub fn copy_chain_table(txs: &Vec<ChainTxs>) -> (out: Vec<ChainTxs>)
    requires
        keys_distinct(txs@, |e: ChainTxs| chain_key(e)),
    ensures
        keys_distinct(out@, |e: ChainTxs| chain_key(e)),
        chain_table(out@) == chain_table(txs@),
{
    let mut out: Vec<ChainTxs> = Vec::new();
    let mut k: usize = 0;
    while k < txs.len()
        invariant
            0 <= k <= txs@.len(),
            out@.len() == k,
            forall|i: int|
                0 <= i < k ==> (#[trigger] out@[i]).chain_id == txs@[i].chain_id && bytes_view(
                    out@[i].txs@,
                ) == bytes_view(txs@[i].txs@),
        decreases txs@.len() - k,
    {
        let e = ChainTxs { chain_id: txs[k].chain_id, txs: clone_byte_vecs(&txs[k].txs) };
        proof {
            assert(bytes_view(e.txs@) =~= bytes_view(txs@[k as int].txs@));
        }
        out.push(e);
        k = k + 1;
    }
    proof {
        let key = |e: ChainTxs| chain_key(e);
        assert forall|a: int, b: int|
            #![trigger key(out@[a]), key(out@[b])]
            0 <= a < out@.len() && 0 <= b < out@.len() && a != b implies key(out@[a]) != key(
                out@[b],
            ) by {
            assert(key(out@[a]) == key(txs@[a]) && key(out@[b]) == key(txs@[b]));
        }
        assert forall|c: ChainId| #[trigger] chain_table(out@).dom().contains(c) == chain_table(
            txs@,
        ).dom().contains(c) by {
            if chain_table(out@).dom().contains(c) {
                let i = lemma_keyed_index(out@, key, c);
                lemma_keyed_at(txs@, key, i);
            }
            if chain_table(txs@).dom().contains(c) {
                let i = lemma_keyed_index(txs@, key, c);
                lemma_keyed_at(out@, key, i);
            }
        }
        assert forall|c: ChainId| #[trigger] chain_table(out@).dom().contains(c) implies chain_table(
            out@,
        )[c] == chain_table(txs@)[c] by {
            let i = lemma_keyed_index(out@, key, c);
            lemma_keyed_at(txs@, key, i);
        }
        assert(chain_table(out@) =~= chain_table(txs@));
    }
    out
}

impl CoordinatorState {
    /// Index of the entry for fingerprint `fp`.
    pub fn find_fingerprint(&self, fp: &str) -> (r: Option<usize>)
        requires
            self.wf(),
        ensures
            r matches Some(i) ==> i < self.submitted_fingerprints@.len()
                && self.submitted_fingerprints@[i as int].fingerprint@ == fp@ && fingerprint_map(
                self.submitted_fingerprints@,
            ).dom().contains(fp@) && fingerprint_map(self.submitted_fingerprints@)[fp@]
                == self.submitted_fingerprints@[i as int].instance_id@,
            r is None ==> !fingerprint_map(self.submitted_fingerprints@).dom().contains(fp@),
    {
        let mut i: usize = 0;
        while i < self.submitted_fingerprints.len()
            invariant
                self.wf(),
                0 <= i <= self.submitted_fingerprints@.len(),
                forall|j: int|
                    0 <= j < i ==> (#[trigger] self.submitted_fingerprints@[j]).fingerprint@ != fp@,
            decreases self.submitted_fingerprints@.len() - i,
        {
            if crate::util::str_eq(self.submitted_fingerprints[i].fingerprint.as_str(), fp) {
                proof {
                    lemma_keyed_at(
                        self.submitted_fingerprints@,
                        |e: FingerprintEntry| fp_key(e),
                        i as int,
                    );
                }
                return Some(i);
            }
            i = i + 1;
        }
        proof {
            lemma_keyed_absent(self.submitted_fingerprints@, |e: FingerprintEntry| fp_key(e), fp@);
        }
        None
    }

    /// Removes the fingerprint entry at index `i`.
    fn remove_fingerprint(&mut self, i: usize)
        requires
            old(self).wf(),
            i < old(self).submitted_fingerprints@.len(),
        ensures
            final(self).wf(),
            fingerprint_map(final(self).submitted_fingerprints@) == fingerprint_map(
                old(self).submitted_fingerprints@,
            ).remove(old(self).submitted_fingerprints@[i as int].fingerprint@),
            final(self).pending == old(self).pending,
            final(self).publisher_period == old(self).publisher_period,
            final(self).origin_seq == old(self).origin_seq,
            final(self).pending_submissions == old(self).pending_submissions,
            final(self).mailbox_buffer == old(self).mailbox_buffer,
    {
        let ghost before = self.submitted_fingerprints@;
        let _ = self.submitted_fingerprints.remove(i);
        proof {
            lemma_keyed_remove(before, |e: FingerprintEntry| fp_key(e), i as int);
            assert(fingerprint_map(self.submitted_fingerprints@) =~= fingerprint_map(before).remove(
                before[i as int].fingerprint@,
            ));
        }
    }

    /// Records that fingerprint `fp` created XT `id`.
    fn record_fingerprint(&mut self, fp: String, id: String)
        requires
            old(self).wf(),
        ensures
            final(self).wf(),
            fingerprint_map(final(self).submitted_fingerprints@) == fingerprint_map(
                old(self).submitted_fingerprints@,
            ).insert(fp@, id@),
            final(self).pending == old(self).pending,
            final(self).publisher_period == old(self).publisher_period,
            final(self).origin_seq == old(self).origin_seq,
            final(self).pending_submissions == old(self).pending_submissions,
            final(self).mailbox_buffer == old(self).mailbox_buffer,
    {
        let ghost m0 = fingerprint_map(old(self).submitted_fingerprints@);
        match self.find_fingerprint(fp.as_str()) {
            Some(i) => {
                self.remove_fingerprint(i);
            },
            None => {
                assert(m0.remove(fp@) =~= m0);
            },
        }
        let ghost before = self.submitted_fingerprints@;
        assert(fingerprint_map(before) == m0.remove(fp@));
        let e = FingerprintEntry { fingerprint: fp, instance_id: id };
        proof {
            assert(!fingerprint_map(before).dom().contains(e.fingerprint@));
            lemma_keyed_push(before, |e: FingerprintEntry| fp_key(e), e);
        }
        self.submitted_fingerprints.push(e);
        proof {
            assert(fingerprint_map(self.submitted_fingerprints@) =~= fingerprint_map(before).insert(
                e.fingerprint@,
                e.instance_id@,
            ));
            assert(m0.remove(fp@).insert(fp@, id@) =~= m0.insert(fp@, id@));
        }
    }
}

/// Text of a locally originated instance id: `xt-<chain>-<sequence>`.
pub open spec fn spec_standalone_id(chain: ChainId, seq: u64) -> Seq<char> {
    "xt-"@ + crate::codec::spec_decimal(chain.0) + "-"@ + crate::codec::spec_decimal(seq)
}

/// Builds the text of a locally originated instance id.
pub fn standalone_id(chain: ChainId, seq: u64) -> (s: String)
    ensures
        s@ == spec_standalone_id(chain, seq),
{
    let mut s = String::from_str("xt-");
    s.append(crate::codec::decimal(chain.0).as_str());
    s.append("-");
    s.append(crate::codec::decimal(seq).as_str());
    s
}

/// What the caller does after a local submission in standalone mode.
#[derive(Debug)]
pub enum StandaloneSubmission {
    /// The same request is still pending under `instance_id`.
    Duplicate { instance_id: String },
    /// A new XT is registered. The caller hands `local_submission` to the
    /// builder (removing the XT again if it refuses), starts local simulation,
    /// and forwards `forward` to the peers with this chain and `origin_seq`.
    Registered {
        instance_id: String,
        local_submission: Option<XtBuilderSubmission>,
        forward: Option<Vec<ChainTxs>>,
        origin_seq: SequenceNumber,
    },
}

/// What the caller does after a local submission in publisher mode.
#[derive(Debug)]
pub struct PublisherSubmission {
    /// The request's fingerprint; the waiter is registered under it.
    pub fingerprint: String,
    /// The request to send to the publisher.
    pub request: XtRequest,
    /// No other caller is waiting on this request: it must be sent.
    pub should_send: bool,
}

/// The fingerprint-to-instance table viewed as a map.
pub open spec fn fingerprint_map(s: Seq<FingerprintEntry>) -> Map<Seq<char>, Seq<char>> {
    Map::new(
        |fp: Seq<char>| keyed_map(s, |e: FingerprintEntry| fp_key(e)).dom().contains(fp),
        |fp: Seq<char>| keyed_map(s, |e: FingerprintEntry| fp_key(e))[fp].instance_id@,
    )
}

/// Where a submission went.
#[derive(Debug)]
pub enum XtSubmission {
    /// A publisher is connected: the caller waits for it to assign the id.
    Publisher(PublisherSubmission),
    /// No publisher: the XT is handled locally.
    Standalone(StandaloneSubmission),
}

/// The standalone answer inside a submission result.
pub open spec fn standalone_result(r: Result<XtSubmission, CoordinatorError>) -> Result<
    StandaloneSubmission,
    CoordinatorError,
> {
    match r {
        Ok(XtSubmission::Standalone(s)) => Ok(s),
        Ok(XtSubmission::Publisher(_)) => Err(CoordinatorError::PublisherNotConnected),
        Err(e) => Err(e),
    }
}

/// What a publisher-mode submission of `txs` by the caller holding `ticket`
/// does, taking coordinator `pre` to `post`: the request is built in
/// ascending chain order and fingerprinted, the ticket joins the waiters of
/// that fingerprint, and the request must be sent when no one waited before.
pub open spec fn publisher_submitted(
    pre: DefaultCoordinator,
    post: DefaultCoordinator,
    txs: Seq<ChainTxs>,
    ticket: u64,
    out: PublisherSubmission,
) -> bool {
    let before = waiters_for(pre.state.pending_submissions@, out.fingerprint@);
    &&& chains_ascending(requests_view(out.request.transaction_requests@))
    &&& requests_match(requests_view(out.request.transaction_requests@), txs)
    &&& out.fingerprint@ == request_fingerprint(out.request)
    &&& out.should_send == (before.len() == 0)
    &&& waiter_map(post.state.pending_submissions@) =~= waiter_map(
        pre.state.pending_submissions@,
    ).insert(out.fingerprint@, before.push(ticket))
    &&& post.state.pending == pre.state.pending
    &&& post.state.publisher_period == pre.state.publisher_period
    &&& post.state.origin_seq == pre.state.origin_seq
    &&& post.state.submitted_fingerprints == pre.state.submitted_fingerprints
    &&& post.state.mailbox_buffer == pre.state.mailbox_buffer
}

/// What a standalone submission of `txs` at `now` does, taking coordinator
/// `pre` to `post` and answering `r`: a request whose fingerprint maps to a
/// still-pending XT answers that XT's id and changes nothing; otherwise, with
/// too many undecided XTs, or with the origin sequence at `u64::MAX` (no
/// number left for a new XT), the stale fingerprint entry is dropped and the
/// submission refused; otherwise the next origin sequence numbers a new XT
/// `xt-<chain>-<seq>` carrying `txs`, locked for local simulation, joined by
/// its buffered mailbox messages and recorded under the fingerprint.
pub open spec fn standalone_submitted(
    pre: DefaultCoordinator,
    post: DefaultCoordinator,
    txs: Seq<ChainTxs>,
    forward: bool,
    now: u64,
    r: Result<StandaloneSubmission, CoordinatorError>,
) -> bool {
    let olds = pre.state;
    let news = post.state;
    let req = spec_build_request(txs);
    let fp = spec_fingerprint(spec_encode_xt_request(req));
    let fps = fingerprint_map(olds.submitted_fingerprints@);
    let dup = fps.dom().contains(fp) && olds.pending_map().dom().contains(fps[fp]);
    let seq = SequenceNumber((olds.origin_seq.0 + 1) as u64);
    let id = spec_standalone_id(pre.chain_id, seq.0);
    if dup {
        &&& r matches Ok(StandaloneSubmission::Duplicate { instance_id })
            && instance_id@ == fps[fp]
        &&& news == olds
    } else if undecided_count(olds.pending@) >= MAX_PENDING_XTS {
        &&& r == Err::<StandaloneSubmission, CoordinatorError>(
            CoordinatorError::TooManyPendingInstances(MAX_PENDING_XTS),
        )
        &&& news.pending == olds.pending
        &&& fingerprint_map(news.submitted_fingerprints@) =~= fps.remove(fp)
        &&& news.origin_seq == olds.origin_seq
        &&& news.publisher_period == olds.publisher_period
        &&& news.pending_submissions == olds.pending_submissions
        &&& news.mailbox_buffer == olds.mailbox_buffer
    } else if olds.origin_seq.0 == u64::MAX {
        &&& r matches Err(CoordinatorError::Other(m)) && m@ == "origin sequence exhausted"@
        &&& news.pending == olds.pending
        &&& fingerprint_map(news.submitted_fingerprints@) =~= fps.remove(fp)
        &&& news.origin_seq == olds.origin_seq
        &&& news.publisher_period == olds.publisher_period
        &&& news.pending_submissions == olds.pending_submissions
        &&& news.mailbox_buffer == olds.mailbox_buffer
    } else {
        &&& r matches Ok(
            StandaloneSubmission::Registered {
                instance_id,
                local_submission,
                forward: fwd,
                origin_seq,
            },
        ) && instance_id@ == id && origin_seq == seq && (fwd is Some <==> forward)
            && (fwd matches Some(f) ==> chain_table(f@) =~= chain_table(txs))
            && (local_submission is Some <==> chain_table(txs).dom().contains(
            pre.chain_id,
        ) && chain_table(txs)[pre.chain_id].len() > 0) && (local_submission matches Some(
            sub,
        ) ==> sub.instance_id@ == id && sub.period_id == 0 && sub.sequence_number
            == seq.0 && bytes_view(sub.transactions@) =~= chain_table(txs)[pre.chain_id])
        &&& news.origin_seq == seq
        &&& registered_xt(
            news.pending@.last(),
            id,
            vstd::utf8::encode_utf8(id),
            chain_table(txs),
            pre.chain_id,
            seq,
            seq![pre.chain_id],
            now,
        )
        &&& news.pending@.last().pending_mailbox@ =~= buffered_for(
            olds.mailbox_buffer@,
            vstd::utf8::encode_utf8(id),
        )
        &&& news.pending_map() =~= olds.pending_map().insert(id, news.pending@.last())
        &&& buffer_map(news.mailbox_buffer@) =~= buffer_map(olds.mailbox_buffer@).remove(
            vstd::utf8::encode_utf8(id),
        )
        &&& news.publisher_period == olds.publisher_period
        &&& news.pending_submissions == olds.pending_submissions
        &&& fingerprint_map(news.submitted_fingerprints@) =~= fps.insert(fp, id)
    }
}

/// The instance id a standalone submission answered.
pub open spec fn submission_id(s: StandaloneSubmission) -> Seq<char> {
    match s {
        StandaloneSubmission::Duplicate { instance_id } => instance_id@,
        StandaloneSubmission::Registered { instance_id, .. } => instance_id@,
    }
}

/// Submitting the same transactions again in standalone mode, while the XT
/// the first submission answered is still pending, answers that same XT as a
/// duplicate and changes nothing.
pub proof fn lemma_standalone_resubmission(
    c0: DefaultCoordinator,
    c1: DefaultCoordinator,
    c2: DefaultCoordinator,
    txs: Seq<ChainTxs>,
    forward1: bool,
    forward2: bool,
    now1: u64,
    now2: u64,
    r1: Result<StandaloneSubmission, CoordinatorError>,
    r2: Result<StandaloneSubmission, CoordinatorError>,
)
    requires
        c1.chain_id == c0.chain_id,
        standalone_submitted(c0, c1, txs, forward1, now1, r1),
        standalone_submitted(c1, c2, txs, forward2, now2, r2),
        r1 matches Ok(s1) && c1.state.pending_map().dom().contains(submission_id(s1)),
    ensures
        r1 matches Ok(s1) && r2 matches Ok(StandaloneSubmission::Duplicate { instance_id })
            && instance_id@ == submission_id(s1),
        c2.state == c1.state,
{
    let fp = spec_fingerprint(spec_encode_xt_request(spec_build_request(txs)));
    let fps0 = fingerprint_map(c0.state.submitted_fingerprints@);
    let fps1 = fingerprint_map(c1.state.submitted_fingerprints@);
    assert(fps1.dom().contains(fp) && fps1[fp] == submission_id(r1->Ok_0));
}

/// Two publisher-mode submissions of the same transactions, by the callers
/// holding `t1` and then `t2`: both are registered under the same
/// fingerprint, behind whoever waited before, and the second never sends the
/// request again.
pub proof fn lemma_publisher_duplicate_joins(
    c0: DefaultCoordinator,
    c1: DefaultCoordinator,
    c2: DefaultCoordinator,
    txs: Seq<ChainTxs>,
    t1: u64,
    t2: u64,
    o1: PublisherSubmission,
    o2: PublisherSubmission,
)
    requires
        keys_distinct(txs, |e: ChainTxs| chain_key(e)),
        publisher_submitted(c0, c1, txs, t1, o1),
        publisher_submitted(c1, c2, txs, t2, o2),
    ensures
        o2.fingerprint@ == o1.fingerprint@,
        !o2.should_send,
        waiter_map(c2.state.pending_submissions@) == waiter_map(
            c0.state.pending_submissions@,
        ).insert(
            o1.fingerprint@,
            waiters_for(c0.state.pending_submissions@, o1.fingerprint@).push(t1).push(t2),
        ),
{
    crate::submission::lemma_request_unique(
        requests_view(o1.request.transaction_requests@),
        requests_view(o2.request.transaction_requests@),
        txs,
    );
    let fp = o1.fingerprint@;
    let before = waiters_for(c0.state.pending_submissions@, fp);
    let w1 = waiter_map(c1.state.pending_submissions@);
    assert(w1 =~= waiter_map(c0.state.pending_submissions@).insert(fp, before.push(t1)));
    assert(w1.dom().contains(fp) && w1[fp] == before.push(t1));
    assert(waiters_for(c1.state.pending_submissions@, fp) == before.push(t1));
    assert(waiter_map(c2.state.pending_submissions@) =~= waiter_map(
        c0.state.pending_submissions@,
    ).insert(fp, before.push(t1).push(t2)));
}

impl DefaultCoordinator {
    /// Checks a submission: it must name at least two chains. No chain at all
    /// is `NoTransactions`; a single chain is `Other`.
    pub fn check_submission(txs: &Vec<ChainTxs>) -> (r: Result<(), CoordinatorError>)
        ensures
            txs@.len() == 0 ==> r == Err::<(), CoordinatorError>(CoordinatorError::NoTransactions),
            txs@.len() == 1 ==> (r matches Err(CoordinatorError::Other(m)) && m@
                == "cross-chain transaction must span at least 2 chains"@),
            txs@.len() >= 2 ==> r is Ok,
    {
        if txs.len() == 0 {
            return Err(CoordinatorError::NoTransactions);
        }
        if txs.len() < 2 {
            return Err(
                CoordinatorError::Other(
                    String::from_str("cross-chain transaction must span at least 2 chains"),
                ),
            );
        }
        Ok(())
    }

    /// Submits a cross-chain transaction: it must span at least two chains.
    /// With a connected publisher, the caller holding `ticket` waits for the
    /// publisher to assign the instance id; otherwise the XT is registered in
    /// standalone mode (and forwarded to peers when `forward`).
    pub fn submit_xt(
        &mut self,
        txs: Vec<ChainTxs>,
        publisher_connected: bool,
        ticket: u64,
        forward: bool,
        now: u64,
    ) -> (r: Result<XtSubmission, CoordinatorError>)
        requires
            old(self).state.wf(),
            keys_distinct(txs@, |e: ChainTxs| chain_key(e)),
        ensures
            final(self).state.wf(),
            final(self).chain_id == old(self).chain_id,
            final(self).nonce_manager@ == old(self).nonce_manager@,
            txs@.len() == 0 ==> r == Err::<XtSubmission, CoordinatorError>(
                CoordinatorError::NoTransactions,
            ) && *final(self) == *old(self),
            txs@.len() == 1 ==> (r matches Err(CoordinatorError::Other(m)) && m@
                == "cross-chain transaction must span at least 2 chains"@) && *final(self) == *old(
                self,
            ),
            txs@.len() >= 2 && publisher_connected ==> (r matches Ok(XtSubmission::Publisher(p))
                && publisher_submitted(*old(self), *final(self), txs@, ticket, p)),
            txs@.len() >= 2 && !publisher_connected ==> !(r matches Ok(XtSubmission::Publisher(_)))
                && standalone_submitted(
                *old(self),
                *final(self),
                txs@,
                forward,
                now,
                standalone_result(r),
            ),
    {
        if let Err(e) = Self::check_submission(&txs) {
            return Err(e);
        }
        if publisher_connected {
            Ok(XtSubmission::Publisher(self.submit_xt_publisher(&txs, ticket)))
        } else {
            match self.submit_xt_standalone(txs, forward, now) {
                Ok(s) => Ok(XtSubmission::Standalone(s)),
                Err(e) => Err(e),
            }
        }
    }

    /// Registers a caller waiting for the publisher to assign an instance id
    /// to the request built from `txs`. Only the first caller for a request
    /// sends it; later ones join the wait.
    pub fn submit_xt_publisher(&mut self, txs: &Vec<ChainTxs>, ticket: u64) -> (out:
        PublisherSubmission)
        requires
            old(self).state.wf(),
            keys_distinct(txs@, |e: ChainTxs| chain_key(e)),
        ensures
            final(self).state.wf(),
            final(self).chain_id == old(self).chain_id,
            final(self).nonce_manager@ == old(self).nonce_manager@,
            publisher_submitted(*old(self), *final(self), txs@, ticket, out),
    {
        let request = build_xt_request(txs);
        let fingerprint = xt_request_fingerprint(&request);
        let mut waiters = self.state.resolve_pending_submission(fingerprint.as_str());
        let should_send = waiters.len() == 0;
        waiters.push(ticket);
        let entry = SubmissionWaiters { fingerprint: fingerprint.clone(), waiters };
        let ghost before = self.state.pending_submissions@;
        proof {
            assert(!keyed_map(before, |e: SubmissionWaiters| sub_key(e)).dom().contains(
                fingerprint@,
            )) by {
                assert(!waiter_map(before).dom().contains(fingerprint@));
            }
            lemma_keyed_push(before, |e: SubmissionWaiters| sub_key(e), entry);
        }
        self.state.pending_submissions.push(entry);
        proof {
            assert(waiter_map(self.state.pending_submissions@) =~= waiter_map(before).insert(
                fingerprint@,
                entry.waiters@,
            ));
            assert(waiter_map(self.state.pending_submissions@) =~= waiter_map(
                old(self).state.pending_submissions@,
            ).insert(
                fingerprint@,
                waiters_for(old(self).state.pending_submissions@, fingerprint@).push(ticket),
            ));
        }
        PublisherSubmission { fingerprint, request, should_send }
    }

    /// Registers a locally submitted XT in standalone mode. A request whose
    /// fingerprint maps to a still-pending XT returns that XT's id; a stale
    /// fingerprint entry is dropped. Otherwise, unless too many XTs are
    /// undecided or the origin sequence has no number left, the next origin
    /// sequence numbers a new XT `xt-<chain>-<seq>`
    /// that carries all of `txs`, is locked for local simulation, and is
    /// recorded under the fingerprint.
    #[verifier::rlimit(40)]
    pub fn submit_xt_standalone(&mut self, txs: Vec<ChainTxs>, forward: bool, now: u64) -> (r:
        Result<StandaloneSubmission, CoordinatorError>)
        requires
            old(self).state.wf(),
            keys_distinct(txs@, |e: ChainTxs| chain_key(e)),
        ensures
            final(self).state.wf(),
            final(self).chain_id == old(self).chain_id,
            final(self).nonce_manager@ == old(self).nonce_manager@,
            standalone_submitted(*old(self), *final(self), txs@, forward, now, r),
    {
        let request = build_xt_request(&txs);
        let fingerprint = xt_request_fingerprint(&request);
        // Deduplicate against a still-pending XT with the same request.
        match self.state.find_fingerprint(fingerprint.as_str()) {
            Some(i) => {
                if self.state.find_pending(self.state.submitted_fingerprints[i].instance_id.as_str()).is_some() {
                    return Ok(
                        StandaloneSubmission::Duplicate {
                            instance_id: self.state.submitted_fingerprints[i].instance_id.clone(),
                        },
                    );
                }
                self.state.remove_fingerprint(i);
            },
            None => {},
        }
        if self.state.count_undecided() >= MAX_PENDING_XTS {
            return Err(CoordinatorError::TooManyPendingInstances(MAX_PENDING_XTS));
        }
        // Only a new registration takes a sequence number.
        if self.state.origin_seq.0 == u64::MAX {
            return Err(CoordinatorError::Other(String::from_str("origin sequence exhausted")));
        }
        let seq = SequenceNumber(self.state.origin_seq.0 + 1);
        self.state.origin_seq = seq;
        let id = standalone_id(self.chain_id, seq.0);
        let forward_txs = if forward {
            Some(copy_chain_table(&txs))
        } else {
            None
        };
        let raw = crate::util::copy_bytes(id.as_str().as_bytes());
        let mut xt = PendingXt::new(id.clone(), raw, now);
        xt.origin_chain = Some(self.chain_id);
        xt.origin_seq = seq;
        xt.raw_txs = txs;
        xt.locked_chains.push(self.chain_id);
        assert(xt.locked_chains@ =~= seq![self.chain_id]);
        // An XT already registered under this id is replaced.
        let ghost p0 = self.state.pending_map();
        self.state.remove_pending_xt(id.as_str());
        self.state.register_xt(xt);
        proof {
            assert(p0.remove(id@).insert(id@, self.state.pending@.last()) =~= p0.insert(
                id@,
                self.state.pending@.last(),
            ));
        }
        let last = self.state.pending.len() - 1;
        let local_submission = self.local_builder_submission(&self.state.pending[last]);
        self.state.record_fingerprint(fingerprint, id.clone());
        Ok(
            StandaloneSubmission::Registered {
                instance_id: id,
                local_submission,
                forward: forward_txs,
                origin_seq: seq,
            },
        )
    }

    /// Handles a peer-forwarded XT: chains without transactions are dropped;
    /// an XT already registered is left alone. Otherwise the XT is registered
    /// with its origin and any buffered mailbox messages, and locked for local
    /// simulation when it carries transactions for this chain. Returns whether
    /// the caller must start local simulation.
    pub fn handle_forwarded_xt(
        &mut self,
        instance_id: &str,
        txs: &Vec<ChainTxs>,
        origin_chain: ChainId,
        origin_seq: SequenceNumber,
        now: u64,
    ) -> (r: Result<bool, CoordinatorError>)
        requires
            old(self).state.wf(),
            keys_distinct(txs@, |e: ChainTxs| chain_key(e)),
        ensures
            final(self).state.wf(),
            final(self).chain_id == old(self).chain_id,
            final(self).nonce_manager@ == old(self).nonce_manager@,
            ({
                let table = nonempty_table(chain_table(txs@));
                let olds = old(self).state;
                let news = final(self).state;
                if instance_id@.len() == 0 {
                    &&& r matches Err(CoordinatorError::Other(m)) && m@
                        == "missing instance_id for forwarded XT"@
                    &&& news == olds
                } else if table.dom().len() == 0 {
                    &&& r == Err::<bool, CoordinatorError>(CoordinatorError::NoTransactions)
                    &&& news == olds
                } else if olds.pending_map().dom().contains(instance_id@) {
                    &&& r == Ok::<bool, CoordinatorError>(false)
                    &&& news == olds
                } else {
                    &&& r == Ok::<bool, CoordinatorError>(table.dom().contains(old(self).chain_id))
                    &&& news.pending@.len() == olds.pending@.len() + 1
                    &&& news.pending@.drop_last() == olds.pending@
                    &&& registered_xt(
                        news.pending@.last(),
                        instance_id@,
                        instance_id.spec_bytes(),
                        table,
                        origin_chain,
                        origin_seq,
                        if table.dom().contains(old(self).chain_id) {
                            seq![old(self).chain_id]
                        } else {
                            Seq::empty()
                        },
                        now,
                    )
                    &&& news.pending@.last().pending_mailbox@ == buffered_for(
                        olds.mailbox_buffer@,
                        instance_id.spec_bytes(),
                    )
                    &&& news.pending_map() == olds.pending_map().insert(
                        instance_id@,
                        news.pending@.last(),
                    )
                    &&& buffer_map(news.mailbox_buffer@) == buffer_map(olds.mailbox_buffer@).remove(
                        instance_id.spec_bytes(),
                    )
                    &&& news.publisher_period == olds.publisher_period
                    &&& news.origin_seq == olds.origin_seq
                    &&& news.submitted_fingerprints == olds.submitted_fingerprints
                    &&& news.pending_submissions == olds.pending_submissions
                }
            }),
    {
        if instance_id.unicode_len() == 0 {
            return Err(
                CoordinatorError::Other(String::from_str("missing instance_id for forwarded XT")),
            );
        }
        let clean = keep_nonempty(txs);
        proof {
            crate::keyed::lemma_keyed_len(clean@, |e: ChainTxs| chain_key(e));
            assert(chain_table(clean@).dom() =~= keyed_map(clean@, |e: ChainTxs| chain_key(e)).dom());
        }
        if clean.len() == 0 {
            return Err(CoordinatorError::NoTransactions);
        }
        if self.state.find_pending(instance_id).is_some() {
            return Ok(false);
        }
        let has_local = find_chain(&clean, self.chain_id).is_some();
        proof {
            if has_local {
                let i = choose|i: int| 0 <= i < clean@.len() && clean@[i].chain_id == self.chain_id;
                lemma_keyed_at(clean@, |e: ChainTxs| chain_key(e), i);
            } else {
                lemma_keyed_absent(clean@, |e: ChainTxs| chain_key(e), self.chain_id);
            }
        }
        let raw = crate::util::copy_bytes(instance_id.as_bytes());
        let mut xt = PendingXt::new(instance_id.to_owned(), raw, now);
        xt.raw_txs = clean;
        xt.origin_chain = Some(origin_chain);
        xt.origin_seq = origin_seq;
        if has_local {
            xt.locked_chains.push(self.chain_id);
        }
        proof {
            assert(xt.locked_chains@ =~= (if has_local {
                seq![self.chain_id]
            } else {
                Seq::empty()
            }));
        }
        self.state.register_xt(xt);
        Ok(has_local)
    }

    /// Handles a publisher `StartInstance`: checks the request and the
    /// instance id, refuses duplicates and overload, admits the instance's
    /// period and sequence, then registers the XT with its transactions per
    /// chain, the sender/nonce of each chain's first transaction, and any
    /// buffered mailbox messages. An XT with transactions for this chain is
    /// locked for local simulation and handed to the builder by the caller.
    pub fn handle_start_instance(&mut self, msg: &StartInstance, now: u64) -> (out:
        StartInstanceOutcome)
        requires
            old(self).state.wf(),
        ensures
            final(self).state.wf(),
            final(self).chain_id == old(self).chain_id,
            final(self).nonce_manager@ == old(self).nonce_manager@,
            start_instance_result(old(self).state, final(self).state, *msg, old(self).chain_id, now, out),
    {
        let req = match &msg.xt_request {
            None => {
                return StartInstanceOutcome::Failed {
                    error: CoordinatorError::Other(String::from_str("missing xt_request")),
                    waiters: Vec::new(),
                };
            },
            Some(r) => r,
        };
        let fingerprint = xt_request_fingerprint(req);
        if msg.instance_id.len() != 32 {
            let waiters = self.state.resolve_pending_submission(fingerprint.as_str());
            return StartInstanceOutcome::Rejected {
                waiters,
                error: String::from_str("invalid start-instance: instance id must be 32 bytes"),
                raw_instance_id: crate::util::copy_bytes(msg.instance_id.as_slice()),
            };
        }
        let id = hex_encode(msg.instance_id.as_slice());
        let raw_txs = merge_requests(&req.transaction_requests);
        let sender_nonces = build_sender_nonce_cache(&raw_txs);
        if self.state.find_pending(id.as_str()).is_some() {
            return StartInstanceOutcome::Failed {
                error: CoordinatorError::InstanceAlreadyPending(id),
                waiters: Vec::new(),
            };
        }
        if self.state.count_undecided() >= MAX_PENDING_XTS {
            let waiters = self.state.resolve_pending_submission(fingerprint.as_str());
            return StartInstanceOutcome::Failed {
                error: CoordinatorError::TooManyPendingInstances(MAX_PENDING_XTS),
                waiters,
            };
        }
        let period = PeriodId(msg.period_id);
        let seq = SequenceNumber(msg.sequence_number);
        if let Err(err) = self.state.publisher_period.accept_start_instance(period, seq) {
            let waiters = self.state.resolve_pending_submission(fingerprint.as_str());
            return StartInstanceOutcome::Rejected {
                waiters,
                error: err.message(),
                raw_instance_id: crate::util::copy_bytes(msg.instance_id.as_slice()),
            };
        }
        let includes_local = find_chain(&raw_txs, self.chain_id).is_some();
        proof {
            if includes_local {
                let i = choose|i: int| 0 <= i < raw_txs@.len() && raw_txs@[i].chain_id == self.chain_id;
                lemma_keyed_at(raw_txs@, |e: ChainTxs| chain_key(e), i);
            } else {
                lemma_keyed_absent(raw_txs@, |e: ChainTxs| chain_key(e), self.chain_id);
            }
        }
        let raw = crate::util::copy_bytes(msg.instance_id.as_slice());
        let mut xt = PendingXt::new(id.clone(), raw, now);
        xt.period_id = period;
        xt.sequence_num = seq;
        xt.raw_txs = raw_txs;
        xt.sender_nonces = sender_nonces;
        if includes_local {
            xt.locked_chains.push(self.chain_id);
        }
        let ghost x0 = xt;
        proof {
            assert(xt.locked_chains@ =~= (if includes_local {
                seq![self.chain_id]
            } else {
                Seq::empty()
            }));
        }
        self.state.register_xt(xt);
        let last = self.state.pending.len() - 1;
        let local_submission = self.local_builder_submission(&self.state.pending[last]);
        proof {
            let table = merged_requests(requests_view(req.transaction_requests@));
            let x = self.state.pending@.last();
            assert(x.raw_txs == x0.raw_txs);
            assert(chain_table(x.raw_txs@) == table);
            if table.dom().contains(self.chain_id) {
                let i = lemma_keyed_index(x.raw_txs@, |e: ChainTxs| chain_key(e), self.chain_id);
                assert(x.raw_txs@[i].txs@.len() > 0);
            }
        }
        StartInstanceOutcome::Registered {
            instance_id: id,
            fingerprint,
            local_submission,
            process_locally: includes_local,
        }
    }

    /// Handles an inbound CIRC message: it joins the pending mailbox of the
    /// first XT registered under its raw instance id, or the orphan buffer
    /// when no XT is. Returns whether it joined an XT.
    pub fn handle_mailbox_message(&mut self, msg: MailboxMessage) -> (attached: bool)
        requires
            old(self).state.wf(),
        ensures
            final(self).state.wf(),
            final(self).chain_id == old(self).chain_id,
            final(self).nonce_manager@ == old(self).nonce_manager@,
            final(self).state.publisher_period == old(self).state.publisher_period,
            final(self).state.origin_seq == old(self).state.origin_seq,
            final(self).state.submitted_fingerprints == old(self).state.submitted_fingerprints,
            final(self).state.pending_submissions == old(self).state.pending_submissions,
            attached == raw_index(old(self).state.pending@, msg.instance_id@) is Some,
            raw_index(old(self).state.pending@, msg.instance_id@) matches Some(i) ==> {
                &&& final(self).state.mailbox_buffer == old(self).state.mailbox_buffer
                &&& final(self).state.pending@.len() == old(self).state.pending@.len()
                &&& forall|j: int|
                    0 <= j < old(self).state.pending@.len() && j != i ==> final(self).state.pending@[j] == old(self).state.pending@[j]
                &&& same_but_mailbox(old(self).state.pending@[i], final(self).state.pending@[i])
                &&& final(self).state.pending@[i].pending_mailbox@ == old(self).state.pending@[i].pending_mailbox@.push(msg)
            },
            raw_index(old(self).state.pending@, msg.instance_id@) is None ==> {
                &&& final(self).state.pending == old(self).state.pending
                &&& orphan_buffered(
                    old(self).state.mailbox_buffer@,
                    final(self).state.mailbox_buffer@,
                    msg,
                )
            },
    {
        match self.state.find_raw(msg.instance_id.as_slice()) {
            Some(i) => {
                let ghost before = self.state.pending@;
                let mut xt = self.state.pending.remove(i);
                let ghost old_xt = xt;
                xt.pending_mailbox.push(msg);
                proof {
                    assert(same_but_mailbox(old_xt, xt));
                }
                self.state.pending.insert(i, xt);
                proof {
                    self.state.lemma_put_back(before, i as int);
                }
                true
            },
            None => {
                self.state.buffer_orphan_mailbox(msg);
                false
            },
        }
    }
}

} // verus!
