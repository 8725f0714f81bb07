//! The coordinator state machine: XT registration, votes, decisions, period
//! transitions, rollback, and builder lifecycle commands.
//!
//! Every method takes the current time (`now`, milliseconds on the caller's
//! monotonic clock) where the lifecycle records one, and returns the work the
//! caller must perform outside (builder calls, publisher votes, peer forwards).

use vstd::prelude::*;

use crate::error::CoordinatorError;
use crate::keyed::{
    has_key, keyed_map, keys_distinct, lemma_keyed_absent, lemma_keyed_at, lemma_keyed_index,
    lemma_keyed_push, lemma_keyed_remove, lemma_keyed_update,
};
use crate::nonce::{DeferredNonceManager, NonceView, ReservedRange};
use crate::overrides::StateOverride;
use crate::period::PublisherPeriod;
use crate::put_inbox::PutInboxTxBuilder;
use crate::types::{
    ChainId, CrossRollupDependency, MailboxMessage, PeriodId, SequenceNumber, SuperblockNumber,
};
use crate::util::str_eq;
use crate::xt::{
    bytes_view, chain_txs, determine_xt_status, has_local_txs, spec_xt_status, txs_for, xt_wf,
    PeerVote, PendingXt, XtStatus,
};

verus! {

broadcast use vstd::seq::group_seq_axioms;

/// Maximum number of undecided XTs before new ones are rejected.
pub const MAX_PENDING_XTS: usize = 100;

/// Inbound verification hook configuration.
#[derive(Debug, Clone, Default)]
pub struct VerificationConfig {
    pub enabled: bool,
    pub url: String,
    pub timeout_ms: u64,
}

/// Response for an XT status query.
#[derive(Debug)]
pub struct XtStatusResponse {
    pub instance_id: String,
    pub status: XtStatus,
    pub decision: Option<bool>,
}

/// A locked XT handed to the local builder for holding.
#[derive(Debug)]
pub struct XtBuilderSubmission {
    pub instance_id: String,
    pub period_id: u64,
    pub sequence_number: u64,
    pub transactions: Vec<Vec<u8>>,
}

/// A lifecycle command for the local builder.
#[derive(Debug)]
pub enum XtBuilderCommand {
    /// Release the held XT together with putInbox transactions for `dependencies`.
    Release { instance_id: String, dependencies: Vec<CrossRollupDependency> },
    /// Drop the held XT.
    Abort { instance_id: String },
}

/// Standalone-mode deduplication: the XT registered for a submission fingerprint.
#[derive(Debug)]
pub struct FingerprintEntry {
    pub fingerprint: String,
    pub instance_id: String,
}

/// Callers waiting for the publisher to assign an instance id to a submission.
/// Each waiter is a ticket the caller maps to its reply channel.
#[derive(Debug)]
pub struct SubmissionWaiters {
    pub fingerprint: String,
    pub waiters: Vec<u64>,
}

/// Mailbox messages that arrived before their XT was registered.
#[derive(Debug)]
pub struct BufferedMailbox {
    pub instance_id: Vec<u8>,
    pub messages: Vec<MailboxMessage>,
}

/// The latest poll of a chain's builder: its block position and state overrides.
#[derive(Debug)]
pub struct ChainState {
    pub chain_id: ChainId,
    pub block_number: u64,
    pub flashblock_index: u64,
    pub state_root: [u8; 32],
    pub timestamp: u64,
    pub gas_limit: u64,
    pub state_overrides: Option<StateOverride>,
}

/// Accumulated post-simulation state of XTs simulated on a chain within one
/// block/flashblock window, so later simulations see it.
#[derive(Debug)]
pub struct ChainOverlay {
    pub chain_id: ChainId,
    pub block_number: u64,
    pub flashblock_index: u64,
    pub overlay: StateOverride,
}

impl ChainOverlay {
    /// An empty overlay for the given window.
    pub fn new(chain_id: ChainId, block_number: u64, flashblock_index: u64) -> (o: ChainOverlay)
        ensures
            o.chain_id == chain_id,
            o.block_number == block_number,
            o.flashblock_index == flashblock_index,
            o.overlay.wf(),
            o.overlay.view_map() == Map::<crate::types::Address, crate::overrides::AccountView>::empty(),
    {
        let o = ChainOverlay {
            chain_id,
            block_number,
            flashblock_index,
            overlay: StateOverride { accounts: Vec::new() },
        };
        proof {
            crate::keyed::lemma_keyed_empty(|a: crate::overrides::AccountOverride| crate::overrides::account_key(a));
            assert(o.overlay.view_map() =~= Map::<crate::types::Address, crate::overrides::AccountView>::empty());
        }
        o
    }

    /// Whether the overlay belongs to the given window.
    pub fn matches(&self, block_number: u64, flashblock_index: u64) -> (b: bool)
        ensures
            b == (self.block_number == block_number && self.flashblock_index == flashblock_index),
    {
        self.block_number == block_number && self.flashblock_index == flashblock_index
    }
}

/// Shared coordinator state.
#[derive(Debug)]
pub struct CoordinatorState {
    /// Registered XTs; ids are distinct.
    pub pending: Vec<PendingXt>,
    /// Publisher period and per-period `StartInstance` ordering state.
    pub publisher_period: PublisherPeriod,
    /// Period announced by the last `StartPeriod` or `Rollback`.
    pub current_period_id: PeriodId,
    /// Superblock number announced with the current period.
    pub current_superblock_num: SuperblockNumber,
    /// Monotonic counter for locally-originated XTs in standalone mode.
    pub origin_seq: SequenceNumber,
    /// Fingerprint of each standalone submission and the XT it created.
    pub submitted_fingerprints: Vec<FingerprintEntry>,
    /// Callers waiting on publisher-assigned instance ids, by fingerprint.
    pub pending_submissions: Vec<SubmissionWaiters>,
    /// Orphan mailbox messages keyed by raw instance id.
    pub mailbox_buffer: Vec<BufferedMailbox>,
    /// The latest builder poll of each chain.
    pub chain_states: Vec<ChainState>,
    /// The simulation overlay of each chain.
    pub chain_overlays: Vec<ChainOverlay>,
}

/// The key of a chain overlay.
pub open spec fn overlay_key(o: ChainOverlay) -> ChainId {
    o.chain_id
}

/// The key of a chain state.
pub open spec fn cs_key(c: ChainState) -> ChainId {
    c.chain_id
}

/// The key of a fingerprint entry.
pub open spec fn fp_key(e: FingerprintEntry) -> Seq<char> {
    e.fingerprint@
}

/// The key of a waiter entry.
pub open spec fn sub_key(e: SubmissionWaiters) -> Seq<char> {
    e.fingerprint@
}

/// The key of a buffered-mailbox entry.
pub open spec fn buf_key(e: BufferedMailbox) -> Seq<u8> {
    e.instance_id@
}

/// The key of a pending XT.
pub open spec fn xt_key(x: PendingXt) -> Seq<char> {
    x.id@
}

impl CoordinatorState {
    /// The state of a coordinator that has seen nothing: every table empty, no
    /// period started, all counters zero.
    pub open spec fn fresh(&self) -> bool {
        &&& self.pending@.len() == 0
        &&& self.publisher_period.current is None
        &&& self.publisher_period.last_sequence is None
        &&& self.current_period_id == PeriodId(0)
        &&& self.current_superblock_num == SuperblockNumber(0)
        &&& self.origin_seq == SequenceNumber(0)
        &&& self.submitted_fingerprints@.len() == 0
        &&& self.pending_submissions@.len() == 0
        &&& self.mailbox_buffer@.len() == 0
        &&& self.chain_states@.len() == 0
        &&& self.chain_overlays@.len() == 0
    }

    /// Registered XTs by id.
    pub open spec fn pending_map(&self) -> Map<Seq<char>, PendingXt> {
        keyed_map(self.pending@, |x: PendingXt| xt_key(x))
    }

    /// Ids are distinct and every XT is well formed.
    pub open spec fn wf(&self) -> bool {
        &&& keys_distinct(self.pending@, |x: PendingXt| xt_key(x))
        &&& forall|i: int| 0 <= i < self.pending@.len() ==> xt_wf(#[trigger] self.pending@[i])
        &&& keys_distinct(self.submitted_fingerprints@, |e: FingerprintEntry| fp_key(e))
        &&& keys_distinct(self.pending_submissions@, |e: SubmissionWaiters| sub_key(e))
        &&& keys_distinct(self.mailbox_buffer@, |e: BufferedMailbox| buf_key(e))
        &&& keys_distinct(self.chain_states@, |c: ChainState| cs_key(c))
        &&& forall|i: int|
            0 <= i < self.chain_states@.len() ==> ((#[trigger] self.chain_states@[i]).state_overrides matches Some(o) ==> o.wf())
        &&& keys_distinct(self.chain_overlays@, |o: ChainOverlay| overlay_key(o))
        &&& forall|i: int| 0 <= i < self.chain_overlays@.len() ==> (#[trigger] self.chain_overlays@[i]).overlay.wf()
    }

    /// Every field but the pending table is the same in `self` and `other`.
    pub open spec fn same_except_pending(&self, other: &CoordinatorState) -> bool {
        &&& self.publisher_period == other.publisher_period
        &&& self.current_period_id == other.current_period_id
        &&& self.current_superblock_num == other.current_superblock_num
        &&& self.origin_seq == other.origin_seq
        &&& self.submitted_fingerprints == other.submitted_fingerprints
        &&& self.pending_submissions == other.pending_submissions
        &&& self.mailbox_buffer == other.mailbox_buffer
        &&& self.chain_states == other.chain_states
        &&& self.chain_overlays == other.chain_overlays
    }

    /// An empty state: nothing pending, no period started.
    pub fn new() -> (s: Self)
        ensures
            s.fresh(),
            s.wf(),
            s.pending_map() =~= Map::<Seq<char>, PendingXt>::empty(),
    {
        let s = CoordinatorState {
            pending: Vec::new(),
            publisher_period: PublisherPeriod::new(),
            current_period_id: PeriodId(0),
            current_superblock_num: SuperblockNumber(0),
            origin_seq: SequenceNumber(0),
            submitted_fingerprints: Vec::new(),
            pending_submissions: Vec::new(),
            mailbox_buffer: Vec::new(),
            chain_states: Vec::new(),
            chain_overlays: Vec::new(),
        };
        proof {
            crate::keyed::lemma_keyed_empty(|x: PendingXt| xt_key(x));
            crate::keyed::lemma_keyed_empty(|c: ChainState| cs_key(c));
            crate::keyed::lemma_keyed_empty(|o: ChainOverlay| overlay_key(o));
        }
        s
    }

    /// Index of the XT with id `id`.
    pub fn find_pending(&self, id: &str) -> (r: Option<usize>)
        requires
            self.wf(),
        ensures
            r matches Some(i) ==> i < self.pending@.len() && self.pending@[i as int].id@ == id@
                && self.pending_map().dom().contains(id@) && self.pending_map()[id@]
                == self.pending@[i as int],
            r is None ==> !self.pending_map().dom().contains(id@),
    {
        let mut i: usize = 0;
        while i < self.pending.len()
            invariant
                self.wf(),
                0 <= i <= self.pending@.len(),
                forall|j: int| 0 <= j < i ==> #[trigger] self.pending@[j].id@ != id@,
            decreases self.pending@.len() - i,
        {
            if str_eq(self.pending[i].id.as_str(), id) {
                proof {
                    lemma_keyed_at(self.pending@, |x: PendingXt| xt_key(x), i as int);
                }
                return Some(i);
            }
            i = i + 1;
        }
        proof {
            lemma_keyed_absent(self.pending@, |x: PendingXt| xt_key(x), id@);
        }
        None
    }

    /// Whether an undecided XT carries transactions for `chain_id`.
    pub fn has_active_instance(&self, chain_id: ChainId) -> (b: bool)
        requires
            self.wf(),
        ensures
            b == exists|i: int|
                0 <= i < self.pending@.len() && (#[trigger] self.pending@[i]).decision is None
                    && has_local_txs(self.pending@[i], chain_id),
    {
        let mut i: usize = 0;
        while i < self.pending.len()
            invariant
                self.wf(),
                0 <= i <= self.pending@.len(),
                forall|j: int|
                    0 <= j < i ==> !((#[trigger] self.pending@[j]).decision is None && has_local_txs(
                        self.pending@[j],
                        chain_id,
                    )),
            decreases self.pending@.len() - i,
        {
            if self.pending[i].decision.is_none() && crate::xt::carries_txs_for(
                &self.pending[i],
                chain_id,
            ) {
                return true;
            }
            i = i + 1;
        }
        false
    }

    /// Replaces the XT at index `i` by `x`, which carries the same id.
    fn replace_pending(&mut self, i: usize, x: PendingXt) -> (prev: PendingXt)
        requires
            old(self).wf(),
            i < old(self).pending@.len(),
            x.id@ == old(self).pending@[i as int].id@,
            xt_wf(x),
        ensures
            final(self).wf(),
            prev == old(self).pending@[i as int],
            final(self).pending@ == old(self).pending@.update(i as int, x),
            final(self).pending_map() == old(self).pending_map().insert(x.id@, x),
            final(self).same_except_pending(old(self)),
    {
        let ghost before = self.pending@;
        let prev = self.pending.remove(i);
        self.pending.insert(i, x);
        proof {
            assert(self.pending@ =~= before.update(i as int, x));
            lemma_keyed_update(before, |x: PendingXt| xt_key(x), i as int, x);
        }
        prev
    }

    /// After an XT was taken out at `i`, updated without changing its id, and
    /// put back, the table is the old one with that entry updated.
    pub proof fn lemma_put_back(&self, before: Seq<PendingXt>, i: int)
        requires
            keys_distinct(before, |x: PendingXt| xt_key(x)),
            forall|j: int| 0 <= j < before.len() ==> xt_wf(#[trigger] before[j]),
            0 <= i < before.len(),
            self.pending@ == before.remove(i).insert(i, self.pending@[i]),
            self.pending@[i].id@ == before[i].id@,
            xt_wf(self.pending@[i]),
        ensures
            keys_distinct(self.pending@, |x: PendingXt| xt_key(x)),
            forall|j: int| 0 <= j < self.pending@.len() ==> xt_wf(#[trigger] self.pending@[j]),
            self.pending@ =~= before.update(i, self.pending@[i]),
            self.pending_map() =~= keyed_map(before, |x: PendingXt| xt_key(x)).insert(
                before[i].id@,
                self.pending@[i],
            ),
    {
        assert(self.pending@ =~= before.update(i, self.pending@[i]));
        lemma_keyed_update(before, |x: PendingXt| xt_key(x), i, self.pending@[i]);
    }

    /// Removes the XT with id `id`; returns whether it was registered.
    pub fn remove_pending_xt(&mut self, id: &str) -> (removed: bool)
        requires
            old(self).wf(),
        ensures
            final(self).wf(),
            removed == old(self).pending_map().dom().contains(id@),
            !removed ==> *final(self) == *old(self),
            final(self).pending_map() == old(self).pending_map().remove(id@),
            final(self).same_except_pending(old(self)),
    {
        match self.find_pending(id) {
            Some(i) => {
                let ghost before = self.pending@;
                let _ = self.pending.remove(i);
                proof {
                    lemma_keyed_remove(before, |x: PendingXt| xt_key(x), i as int);
                }
                true
            },
            None => {
                proof {
                    assert(self.pending_map().remove(id@) =~= self.pending_map());
                }
                false
            },
        }
    }
}

/// The instance id a publisher decision names: the hex of its XT id hash, or
/// empty when the decision carries no XT id.
pub fn decided_instance_id(xt_id_hash: Option<&[u8]>) -> (id: String)
    ensures
        id@ == match xt_id_hash {
            Some(h) => crate::codec::spec_hex(h@),
            None => Seq::<char>::empty(),
        },
{
    match xt_id_hash {
        Some(h) => crate::codec::hex_encode(h),
        None => String::new(),
    }
}

/// Number of peer votes cast by chains other than `own`.
pub open spec fn peer_vote_count(votes: Seq<PeerVote>, own: ChainId) -> nat
    decreases votes.len(),
{
    if votes.len() == 0 {
        0
    } else {
        peer_vote_count(votes.drop_last(), own) + if votes.last().chain_id != own {
            1nat
        } else {
            0nat
        }
    }
}

/// Some chain other than `own` voted to abort.
pub open spec fn peer_abort(votes: Seq<PeerVote>, own: ChainId) -> bool {
    exists|i: int| 0 <= i < votes.len() && (#[trigger] votes[i]).chain_id != own && !votes[i].vote
}

/// The standalone-mode decision for `xt` from the votes known so far: any abort
/// vote decides abort; commit needs a vote from every participating chain.
/// Returns the decision with the number of votes collected and expected.
pub open spec fn spec_standalone_decision(xt: PendingXt, own: ChainId) -> Option<(bool, nat, nat)> {
    if xt.decision is Some {
        None
    } else {
        let expected = xt.raw_txs@.len();
        let collected = (if xt.local_vote is Some {
            1nat
        } else {
            0nat
        }) + peer_vote_count(xt.peer_votes@, own);
        let abort = xt.local_vote == Some(false) || peer_abort(xt.peer_votes@, own);
        if abort {
            Some((false, collected, expected))
        } else if expected > 0 && collected >= expected {
            Some((true, collected, expected))
        } else {
            None
        }
    }
}

/// In standalone mode an abort vote decides at once: an undecided XT whose
/// local vote is abort, or with an abort vote from some other chain, is
/// decided abort however many votes are still missing. A commit is decided
/// only with no abort vote, local or from any other chain, and at least as
/// many votes as participating chains (of which there is one at least). A
/// decided XT is not decided again.
pub proof fn lemma_standalone_abort_decides_at_once(xt: PendingXt, own: ChainId)
    ensures
        xt.decision is Some ==> spec_standalone_decision(xt, own) is None,
        xt.decision is None && (xt.local_vote == Some(false) || exists|i: int|
            0 <= i < xt.peer_votes@.len() && (#[trigger] xt.peer_votes@[i]).chain_id != own
                && !xt.peer_votes@[i].vote) ==> spec_standalone_decision(xt, own) is Some
            && !spec_standalone_decision(xt, own).unwrap().0,
        spec_standalone_decision(xt, own) is Some && spec_standalone_decision(xt, own).unwrap().0
            ==> {
            let d = spec_standalone_decision(xt, own).unwrap();
            &&& xt.decision is None
            &&& xt.local_vote != Some(false)
            &&& forall|i: int|
                0 <= i < xt.peer_votes@.len() && (#[trigger] xt.peer_votes@[i]).chain_id != own
                    ==> xt.peer_votes@[i].vote
            &&& d.2 == xt.raw_txs@.len() && d.2 > 0 && d.1 >= d.2
        },
{
}

/// `deps` restricted to those whose destination is `chain_id`, in order.
pub open spec fn spec_deps_for_chain(deps: Seq<CrossRollupDependency>, chain_id: ChainId) -> Seq<
    CrossRollupDependency,
>
    decreases deps.len(),
{
    if deps.len() == 0 {
        Seq::empty()
    } else {
        let rest = spec_deps_for_chain(deps.drop_last(), chain_id);
        if deps.last().dest_chain_id == chain_id {
            rest.push(deps.last())
        } else {
            rest
        }
    }
}

/// Two dependency lists with the same contents, element by element.
pub open spec fn deps_same(a: Seq<CrossRollupDependency>, b: Seq<CrossRollupDependency>) -> bool {
    a.len() == b.len() && forall|i: int| 0 <= i < a.len() ==> (#[trigger] a[i]).same_as(&b[i])
}

/// Filters dependencies to only those targeting the given chain.
pub fn deps_for_chain(deps: &[CrossRollupDependency], chain_id: ChainId) -> (out: Vec<
    CrossRollupDependency,
>)
    ensures
        deps_same(out@, spec_deps_for_chain(deps@, chain_id)),
{
    let mut out: Vec<CrossRollupDependency> = Vec::new();
    let mut i: usize = 0;
    while i < deps.len()
        invariant
            0 <= i <= deps@.len(),
            deps_same(out@, spec_deps_for_chain(deps@.take(i as int), chain_id)),
        decreases deps@.len() - i,
    {
        proof {
            assert(deps@.take(i + 1).drop_last() =~= deps@.take(i as int));
        }
        if deps[i].dest_chain_id == chain_id {
            let d = deps[i].duplicate();
            out.push(d);
        }
        i = i + 1;
    }
    proof {
        assert(deps@.take(deps@.len() as int) =~= deps@);
    }
    out
}

/// The coordinator: local chain id, timeouts, state, nonce reservations, and
/// the `putInbox` signer. It has no `Debug` form, so the signing key is never
/// printed.
pub struct DefaultCoordinator {
    pub chain_id: ChainId,
    pub circ_timeout_ms: u64,
    pub verification: VerificationConfig,
    pub state: CoordinatorState,
    pub nonce_manager: DeferredNonceManager,
    /// Signs the `putInbox` transactions that deliver dependencies, once set.
    pub put_inbox_builder: Option<PutInboxTxBuilder>,
}

impl DefaultCoordinator {
    /// A coordinator for `chain_id` with empty state.
    pub fn new(chain_id: ChainId, circ_timeout_ms: u64, verification: VerificationConfig) -> (c:
        Self)
        ensures
            c.chain_id == chain_id,
            c.circ_timeout_ms == circ_timeout_ms,
            c.verification == verification,
            c.state.wf(),
            c.state.fresh(),
            c.nonce_manager@ == (NonceView {
                floor: 0,
                initialized: false,
                live: Map::<Seq<char>, ReservedRange>::empty(),
                recycled: Set::<u64>::empty(),
            }),
            c.put_inbox_builder is None,
    {
        let nm = DeferredNonceManager::new();
        DefaultCoordinator {
            chain_id,
            circ_timeout_ms,
            verification,
            state: CoordinatorState::new(),
            nonce_manager: nm,
            put_inbox_builder: None,
        }
    }

    /// Queries the status of an XT by instance id.
    pub fn get_xt_status(&self, instance_id: &str) -> (r: Result<XtStatusResponse, CoordinatorError>)
        requires
            self.state.wf(),
        ensures
            self.state.pending_map().dom().contains(instance_id@) ==> (r matches Ok(resp)
                && resp.instance_id@ == instance_id@ && resp.status == spec_xt_status(
                self.state.pending_map()[instance_id@],
            ) && resp.decision == self.state.pending_map()[instance_id@].decision),
            !self.state.pending_map().dom().contains(instance_id@) ==> (r matches Err(
                CoordinatorError::InstanceNotFound(s),
            ) && s@ == instance_id@),
    {
        match self.state.find_pending(instance_id) {
            Some(i) => {
                let xt = &self.state.pending[i];
                Ok(
                    XtStatusResponse {
                        instance_id: instance_id.to_owned(),
                        status: determine_xt_status(xt),
                        decision: xt.decision,
                    },
                )
            },
            None => Err(CoordinatorError::InstanceNotFound(instance_id.to_owned())),
        }
    }

    /// Records a commit/abort decision for an instance.
    pub fn on_decision(&mut self, instance_id: &str, decision: bool, now: u64) -> (r: Result<
        (),
        CoordinatorError,
    >)
        requires
            old(self).state.wf(),
        ensures
            final(self).state.wf(),
            final(self).chain_id == old(self).chain_id,
            final(self).state.same_except_pending(&old(self).state),
            final(self).nonce_manager@ == old(self).nonce_manager@,
            old(self).state.pending_map().dom().contains(instance_id@) ==> r is Ok
                && final(self).state.pending_map() == old(self).state.pending_map().insert(
                instance_id@,
                PendingXt {
                    decision: Some(decision),
                    decided_at: Some(now),
                    ..old(self).state.pending_map()[instance_id@]
                },
            ),
            !old(self).state.pending_map().dom().contains(instance_id@) ==> (r matches Err(
                CoordinatorError::InstanceNotFound(s),
            ) && s@ == instance_id@) && final(self).state.pending_map() == old(
                self,
            ).state.pending_map(),
    {
        match self.state.find_pending(instance_id) {
            Some(i) => {
                let ghost before = self.state.pending@;
                let mut xt = self.state.pending.remove(i);
                xt.record_decision(decision, now);
                self.state.pending.insert(i, xt);
                proof {
                    self.state.lemma_put_back(before, i as int);
                }
                Ok(())
            },
            None => Err(CoordinatorError::InstanceNotFound(instance_id.to_owned())),
        }
    }
}

} // verus!
