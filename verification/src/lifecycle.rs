//! Votes, decisions, confirmation, period rollover, and rollback.

use vstd::prelude::*;

use crate::coordinator::{
    deps_for_chain, deps_same, peer_abort, peer_vote_count, spec_deps_for_chain,
    spec_standalone_decision, xt_key, CoordinatorState, DefaultCoordinator, XtBuilderCommand,
    XtBuilderSubmission,
};
use crate::error::CoordinatorError;
use crate::keyed::{keyed_map, keys_distinct, lemma_keyed_map_values};
use crate::nonce::is_live_end;
use crate::types::{ChainId, PeriodId, SuperblockNumber};
use crate::xt::{
    bytes_view, chain_txs, has_local_txs, insert_chain, txs_for, vote_key, xt_wf, PeerVote,
    PendingXt,
};

verus! {

broadcast use vstd::seq::group_seq_axioms;

/// The set of ids named in `ids`.
pub open spec fn id_set(ids: Seq<String>) -> Set<Seq<char>> {
    Set::new(|k: Seq<char>| exists|i: int| 0 <= i < ids.len() && #[trigger] ids[i]@ == k)
}

/// `m` with `confirmed_at` set to `now` for every XT whose id is in `ids`.
pub open spec fn confirmed_map(m: Map<Seq<char>, PendingXt>, ids: Set<Seq<char>>, now: u64) -> Map<
    Seq<char>,
    PendingXt,
> {
    Map::new(
        |k: Seq<char>| m.dom().contains(k),
        |k: Seq<char>|
            if ids.contains(k) {
                PendingXt { confirmed_at: Some(now), ..m[k] }
            } else {
                m[k]
            },
    )
}

/// An XT of an earlier period that rollover to `period` aborts: not from the
/// current period, not confirmed, and not decided commit.
pub open spec fn stale_at(xt: PendingXt, period: PeriodId) -> bool {
    &&& xt.period_id.0 != 0
    &&& xt.period_id.0 < period.0
    &&& xt.confirmed_at is None
    &&& xt.decision != Some(true)
}

/// The XT after rollover to `period` at `now`: stale undecided XTs are decided abort.
pub open spec fn rollover_xt(xt: PendingXt, period: PeriodId, now: u64) -> PendingXt {
    if stale_at(xt, period) && xt.decision is None {
        PendingXt { decision: Some(false), decided_at: Some(now), ..xt }
    } else {
        xt
    }
}

/// Ids of the stale XTs whose held transactions the local builder must drop.
pub open spec fn rollover_builder_aborts(s: Seq<PendingXt>, period: PeriodId, chain: ChainId) -> Seq<
    Seq<char>,
>
    decreases s.len(),
{
    if s.len() == 0 {
        Seq::empty()
    } else {
        let r = rollover_builder_aborts(s.drop_last(), period, chain);
        if stale_at(s.last(), period) && has_local_txs(s.last(), chain) {
            r.push(s.last().id@)
        } else {
            r
        }
    }
}

/// Raw ids of the stale XTs aborted by rollover (abort votes owed to the publisher).
pub open spec fn rollover_abort_votes(s: Seq<PendingXt>, period: PeriodId) -> Seq<Seq<u8>>
    decreases s.len(),
{
    if s.len() == 0 {
        Seq::empty()
    } else {
        let r = rollover_abort_votes(s.drop_last(), period);
        if stale_at(s.last(), period) && s.last().decision is None {
            r.push(s.last().instance_id@)
        } else {
            r
        }
    }
}

/// The XT after rollback at `now`: undecided XTs are decided abort.
pub open spec fn rollback_xt(xt: PendingXt, now: u64) -> PendingXt {
    if xt.decision is None {
        PendingXt { decision: Some(false), decided_at: Some(now), ..xt }
    } else {
        xt
    }
}

/// Number of undecided XTs in `s`.
pub open spec fn undecided_count(s: Seq<PendingXt>) -> nat
    decreases s.len(),
{
    if s.len() == 0 {
        0
    } else {
        undecided_count(s.drop_last()) + if s.last().decision is None {
            1nat
        } else {
            0nat
        }
    }
}

/// All waiter tickets of `s`, in order.
pub open spec fn all_waiters(s: Seq<crate::coordinator::SubmissionWaiters>) -> Seq<u64>
    decreases s.len(),
{
    if s.len() == 0 {
        Seq::empty()
    } else {
        all_waiters(s.drop_last()) + s.last().waiters@
    }
}

/// Work left to the caller after a period rollover.
#[derive(Debug)]
pub struct StartPeriodOutcome {
    /// Raw ids of stale XTs aborted here; an abort vote goes to the publisher for each.
    pub aborted_instance_ids: Vec<Vec<u8>>,
    /// Ids of stale XTs the local builder must drop (then their nonces are recycled).
    pub builder_abort_ids: Vec<String>,
}

/// Work left to the caller after a rollback.
#[derive(Debug)]
pub struct RollbackOutcome {
    /// Number of undecided XTs aborted.
    pub aborted: usize,
    /// Submission waiters to answer with "publisher submission aborted by rollback".
    pub resolved_waiters: Vec<u64>,
}

/// The result of recording the local vote.
#[derive(Debug)]
pub struct SendVoteOutcome {
    /// The vote was recorded (false when the XT is unknown or already voted).
    pub recorded: bool,
    /// Raw instance id, for the publisher vote.
    pub instance_id: Vec<u8>,
    /// Standalone decision made by this vote: (decision, collected, expected).
    pub decision: Option<(bool, usize, usize)>,
}

/// The standalone decision as returned by the executable code.
pub open spec fn decision_result(d: Option<(bool, nat, nat)>, r: Option<(bool, usize, usize)>) -> bool {
    match d {
        None => r is None,
        Some((b, c, e)) => r matches Some((rb, rc, re)) && rb == b && rc == c && re == e,
    }
}

/// `xt` after a standalone decision check at `now`.
pub open spec fn after_standalone_decision(xt: PendingXt, own: ChainId, now: u64) -> PendingXt {
    match spec_standalone_decision(xt, own) {
        Some((d, _, _)) => PendingXt { decision: Some(d), decided_at: Some(now), ..xt },
        None => xt,
    }
}

impl DefaultCoordinator {
    /// In standalone mode, decides the instance from the known local and peer
    /// votes: any abort vote decides abort at once; commit is decided only when
    /// a vote from every participating chain has been collected.
    pub fn maybe_make_standalone_decision(&self, xt: &mut PendingXt, now: u64) -> (r: Option<
        (bool, usize, usize),
    >)
        requires
            old(xt).peer_votes@.len() < usize::MAX,
        ensures
            decision_result(spec_standalone_decision(*old(xt), self.chain_id), r),
            *final(xt) == after_standalone_decision(*old(xt), self.chain_id, now),
    {
        if xt.decision.is_some() {
            return None;
        }
        let expected = xt.raw_txs.len();
        let mut collected: usize = 0;
        let mut has_abort_vote = false;
        if let Some(local) = xt.local_vote {
            collected = 1;
            if !local {
                has_abort_vote = true;
            }
        }
        let base: usize = collected;
        let mut i: usize = 0;
        while i < xt.peer_votes.len()
            invariant
                0 <= i <= xt.peer_votes@.len(),
                xt.peer_votes@.len() < usize::MAX,
                base <= 1,
                collected == base + peer_vote_count(xt.peer_votes@.take(i as int), self.chain_id),
                peer_vote_count(xt.peer_votes@.take(i as int), self.chain_id) <= i,
                has_abort_vote == ((xt.local_vote == Some(false)) || exists|j: int|
                    0 <= j < i && (#[trigger] xt.peer_votes@[j]).chain_id != self.chain_id
                        && !xt.peer_votes@[j].vote),
                base == (if xt.local_vote is Some { 1usize } else { 0usize }),
            decreases xt.peer_votes@.len() - i,
        {
            proof {
                assert(xt.peer_votes@.take(i + 1).drop_last() =~= xt.peer_votes@.take(i as int));
            }
            let pv = xt.peer_votes[i];
            if pv.chain_id != self.chain_id {
                collected = collected + 1;
                if !pv.vote {
                    has_abort_vote = true;
                }
            }
            i = i + 1;
        }
        proof {
            assert(xt.peer_votes@.take(xt.peer_votes@.len() as int) =~= xt.peer_votes@);
        }
        if has_abort_vote {
            xt.record_decision(false, now);
            return Some((false, collected, expected));
        }
        if expected > 0 && collected >= expected {
            xt.record_decision(true, now);
            return Some((true, collected, expected));
        }
        None
    }

    /// The locked-XT submission for the local builder, when the XT carries
    /// transactions for this chain. The publisher sequence is preferred; the
    /// local origin sequence is used when the publisher assigned none.
    pub fn local_builder_submission(&self, xt: &PendingXt) -> (r: Option<XtBuilderSubmission>)
        requires
            xt_wf(*xt),
        ensures
            r is Some <==> has_local_txs(*xt, self.chain_id),
            r matches Some(sub) ==> sub.instance_id@ == xt.id@ && sub.period_id == xt.period_id.0
                && sub.sequence_number == (if xt.sequence_num.0 != 0 {
                xt.sequence_num.0
            } else {
                xt.origin_seq.0
            }) && bytes_view(sub.transactions@) == txs_for(*xt, self.chain_id).unwrap(),
    {
        let transactions = match chain_txs(xt, self.chain_id) {
            Some(t) => t,
            None => {
                return None;
            },
        };
        if transactions.len() == 0 {
            return None;
        }
        let copied = crate::types::clone_byte_vecs(transactions);
        proof {
            assert(bytes_view(copied@) =~= bytes_view(transactions@));
        }
        let sequence_number = if xt.sequence_num.0 != 0 {
            xt.sequence_num.0
        } else {
            xt.origin_seq.0
        };
        Some(
            XtBuilderSubmission {
                instance_id: xt.id.clone(),
                period_id: xt.period_id.0,
                sequence_number,
                transactions: copied,
            },
        )
    }

    /// The builder command that follows a decision, when the XT carries
    /// transactions for this chain: release with this chain's fulfilled
    /// dependencies on commit, abort otherwise.
    pub fn local_builder_command(&self, xt: &PendingXt, decision: bool) -> (r: Option<
        XtBuilderCommand,
    >)
        requires
            xt_wf(*xt),
        ensures
            r is Some <==> has_local_txs(*xt, self.chain_id),
            r matches Some(XtBuilderCommand::Release { instance_id, dependencies }) ==> decision
                && instance_id@ == xt.id@ && deps_same(
                dependencies@,
                spec_deps_for_chain(xt.fulfilled_deps@, self.chain_id),
            ),
            r matches Some(XtBuilderCommand::Abort { instance_id }) ==> !decision && instance_id@
                == xt.id@,
    {
        if !crate::xt::carries_txs_for(xt, self.chain_id) {
            return None;
        }
        if decision {
            Some(
                XtBuilderCommand::Release {
                    instance_id: xt.id.clone(),
                    dependencies: deps_for_chain(xt.fulfilled_deps.as_slice(), self.chain_id),
                },
            )
        } else {
            Some(XtBuilderCommand::Abort { instance_id: xt.id.clone() })
        }
    }

    /// Records the local vote for an instance. The first local vote wins; later
    /// ones are ignored. Recording marks the XT simulated and voted and locks
    /// the local chain; in standalone mode the instance is then decided when
    /// the votes allow it.
    pub fn send_vote(&mut self, instance_id: &str, vote: bool, standalone_mode: bool, now: u64) -> (r:
        SendVoteOutcome)
        requires
            old(self).state.wf(),
            forall|i: int|
                0 <= i < old(self).state.pending@.len() ==> (#[trigger] old(
                    self,
                ).state.pending@[i]).peer_votes@.len() < usize::MAX,
        ensures
            final(self).state.wf(),
            final(self).chain_id == old(self).chain_id,
            final(self).state.same_except_pending(&old(self).state),
            final(self).nonce_manager@ == old(self).nonce_manager@,
            ({
                let m = old(self).state.pending_map();
                let k = instance_id@;
                if m.dom().contains(k) && m[k].local_vote is None {
                    let voted = PendingXt {
                        simulated_at: Some(now),
                        vote_sent: true,
                        local_vote: Some(vote),
                        locked_chains: final(self).state.pending_map()[k].locked_chains,
                        ..m[k]
                    };
                    &&& r.recorded
                    &&& r.instance_id@ == m[k].instance_id@
                    &&& final(self).state.pending_map()[k].locked_chains@.to_set()
                        == m[k].locked_chains@.to_set().insert(old(self).chain_id)
                    &&& (standalone_mode ==> decision_result(
                        spec_standalone_decision(voted, old(self).chain_id),
                        r.decision,
                    ) && final(self).state.pending_map() == m.insert(
                        k,
                        after_standalone_decision(voted, old(self).chain_id, now),
                    ))
                    &&& (!standalone_mode ==> r.decision is None && final(self).state.pending_map()
                        == m.insert(k, voted))
                } else {
                    &&& !r.recorded
                    &&& r.decision is None
                    &&& final(self).state.pending_map() == m
                }
            }),
    {
        let ghost m = self.state.pending_map();
        let i = match self.state.find_pending(instance_id) {
            Some(i) => i,
            None => {
                return SendVoteOutcome { recorded: false, instance_id: Vec::new(), decision: None };
            },
        };
        if self.state.pending[i].local_vote.is_some() {
            return SendVoteOutcome { recorded: false, instance_id: Vec::new(), decision: None };
        }
        let ghost before = self.state.pending@;
        let mut xt = self.state.pending.remove(i);
        assert(xt_wf(xt));
        xt.simulated_at = Some(now);
        xt.vote_sent = true;
        xt.local_vote = Some(vote);
        insert_chain(&mut xt.locked_chains, self.chain_id);
        let ghost voted = xt;
        let mut decision: Option<(bool, usize, usize)> = None;
        if standalone_mode {
            decision = self.maybe_make_standalone_decision(&mut xt, now);
        }
        let raw = crate::util::copy_bytes(xt.instance_id.as_slice());
        self.state.pending.insert(i, xt);
        proof {
            self.state.lemma_put_back(before, i as int);
        }
        SendVoteOutcome { recorded: true, instance_id: raw, decision }
    }

    /// Records a peer chain's vote and, in standalone mode, decides when the
    /// votes allow it. Returns the decision made, if any.
    pub fn handle_peer_vote(
        &mut self,
        instance_id: &str,
        chain_id: ChainId,
        vote: bool,
        standalone_mode: bool,
        now: u64,
    ) -> (r: Result<Option<(bool, usize, usize)>, CoordinatorError>)
        requires
            old(self).state.wf(),
            forall|i: int|
                0 <= i < old(self).state.pending@.len() ==> (#[trigger] old(
                    self,
                ).state.pending@[i]).peer_votes@.len() < usize::MAX - 1,
        ensures
            final(self).state.wf(),
            final(self).chain_id == old(self).chain_id,
            final(self).state.same_except_pending(&old(self).state),
            final(self).nonce_manager@ == old(self).nonce_manager@,
            ({
                let m = old(self).state.pending_map();
                let k = instance_id@;
                if m.dom().contains(k) {
                    let nm = final(self).state.pending_map();
                    let voted = PendingXt { peer_votes: nm[k].peer_votes, ..m[k] };
                    &&& keyed_map(nm[k].peer_votes@, |e: PeerVote| vote_key(e)) == keyed_map(
                        m[k].peer_votes@,
                        |e: PeerVote| vote_key(e),
                    ).insert(chain_id, PeerVote { chain_id, vote })
                    &&& (standalone_mode ==> (r matches Ok(d) && decision_result(
                        spec_standalone_decision(voted, old(self).chain_id),
                        d,
                    )) && nm == m.insert(k, after_standalone_decision(voted, old(self).chain_id, now)))
                    &&& (!standalone_mode ==> r == Ok::<Option<(bool, usize, usize)>, CoordinatorError>(None)
                        && nm == m.insert(k, voted))
                } else {
                    &&& r matches Err(CoordinatorError::InstanceNotFound(s)) && s@ == k
                    &&& final(self).state.pending_map() == m
                }
            }),
    {
        let i = match self.state.find_pending(instance_id) {
            Some(i) => i,
            None => {
                return Err(CoordinatorError::InstanceNotFound(instance_id.to_owned()));
            },
        };
        let ghost before = self.state.pending@;
        let mut xt = self.state.pending.remove(i);
        assert(xt_wf(xt));
        set_peer_vote(&mut xt.peer_votes, chain_id, vote);
        let ghost voted = xt;
        let mut decision: Option<(bool, usize, usize)> = None;
        if standalone_mode {
            decision = self.maybe_make_standalone_decision(&mut xt, now);
        }
        self.state.pending.insert(i, xt);
        proof {
            self.state.lemma_put_back(before, i as int);
        }
        Ok(decision)
    }

    /// Marks the given instances as included by the builder. They stay in the
    /// pending table (status polling continues to see them as committed) and
    /// their putInbox nonce reservations are released as consumed.
    pub fn confirm_included_xts(&mut self, instance_ids: &Vec<String>, now: u64) -> (r: Result<
        (),
        CoordinatorError,
    >)
        requires
            old(self).state.wf(),
        ensures
            r is Ok,
            final(self).state.wf(),
            final(self).chain_id == old(self).chain_id,
            final(self).state.same_except_pending(&old(self).state),
            final(self).state.pending_map() == confirmed_map(
                old(self).state.pending_map(),
                id_set(instance_ids@),
                now,
            ),
            final(self).nonce_manager@.live == old(self).nonce_manager@.live.remove_keys(
                id_set(instance_ids@),
            ),
            final(self).nonce_manager@.recycled == old(self).nonce_manager@.recycled,
            is_live_end(
                old(self).nonce_manager@.live.restrict(id_set(instance_ids@)),
                old(self).nonce_manager@.floor,
                final(self).nonce_manager@.floor,
            ),
    {
        let ghost m0 = self.state.pending_map();
        let mut i: usize = 0;
        while i < instance_ids.len()
            invariant
                self.state.wf(),
                self.state.same_except_pending(&old(self).state),
                self.chain_id == old(self).chain_id,
                self.nonce_manager == old(self).nonce_manager,
                m0 == old(self).state.pending_map(),
                0 <= i <= instance_ids@.len(),
                self.state.pending_map() == confirmed_map(m0, id_set(instance_ids@.take(i as int)), now),
            decreases instance_ids@.len() - i,
        {
            let ghost prev = self.state.pending_map();
            let id = instance_ids[i].as_str();
            match self.state.find_pending(id) {
                Some(j) => {
                    let ghost before = self.state.pending@;
                    let mut xt = self.state.pending.remove(j);
                    assert(xt_wf(xt));
                    xt.confirmed_at = Some(now);
                    self.state.pending.insert(j, xt);
                    proof {
                        self.state.lemma_put_back(before, j as int);
                    }
                },
                None => {},
            }
            proof {
                let s1 = id_set(instance_ids@.take(i + 1));
                let s0 = id_set(instance_ids@.take(i as int));
                assert(s1 =~= s0.insert(instance_ids@[i as int]@)) by {
                    assert forall|k: Seq<char>| s1.contains(k) implies s0.insert(instance_ids@[i as int]@).contains(k) by {
                        let w = choose|w: int| 0 <= w < i + 1 && #[trigger] instance_ids@.take(i + 1)[w]@ == k;
                        if w < i {
                            assert(instance_ids@.take(i as int)[w] == instance_ids@.take(i + 1)[w]);
                        }
                    }
                    assert forall|k: Seq<char>| s0.insert(instance_ids@[i as int]@).contains(k) implies s1.contains(k) by {
                        if k == instance_ids@[i as int]@ {
                            assert(instance_ids@.take(i + 1)[i as int]@ == k);
                        } else {
                            let w = choose|w: int| 0 <= w < i && #[trigger] instance_ids@.take(i as int)[w]@ == k;
                            assert(instance_ids@.take(i + 1)[w] == instance_ids@.take(i as int)[w]);
                        }
                    }
                }
                assert(self.state.pending_map() =~= confirmed_map(m0, s1, now));
            }
            i = i + 1;
        }
        proof {
            assert(instance_ids@.take(instance_ids@.len() as int) =~= instance_ids@);
        }
        let ghost live0 = self.nonce_manager@.live;
        let ghost floor0 = self.nonce_manager@.floor;
        let ghost rec0 = self.nonce_manager@.recycled;
        let mut j: usize = 0;
        while j < instance_ids.len()
            invariant
                0 <= j <= instance_ids@.len(),
                self.state.wf(),
                self.state.same_except_pending(&old(self).state),
                self.chain_id == old(self).chain_id,
                self.state.pending_map() == confirmed_map(
                    old(self).state.pending_map(),
                    id_set(instance_ids@),
                    now,
                ),
                self.nonce_manager@.recycled == rec0,
                self.nonce_manager@.live == live0.remove_keys(id_set(instance_ids@.take(j as int))),
                is_live_end(
                    live0.restrict(id_set(instance_ids@.take(j as int))),
                    floor0,
                    self.nonce_manager@.floor,
                ),
            decreases instance_ids@.len() - j,
        {
            let ghost f_before = self.nonce_manager@.floor;
            let ghost l_before = self.nonce_manager@.live;
            self.nonce_manager.release_confirmed(instance_ids[j].as_str());
            proof {
                let k = instance_ids@[j as int]@;
                let s0 = id_set(instance_ids@.take(j as int));
                let s1 = id_set(instance_ids@.take(j + 1));
                assert(s1 =~= s0.insert(k)) by {
                    assert forall|x: Seq<char>| s1.contains(x) implies s0.insert(k).contains(x) by {
                        let w = choose|w: int| 0 <= w < j + 1 && #[trigger] instance_ids@.take(j + 1)[w]@ == x;
                        if w < j {
                            assert(instance_ids@.take(j as int)[w] == instance_ids@.take(j + 1)[w]);
                        }
                    }
                    assert forall|x: Seq<char>| s0.insert(k).contains(x) implies s1.contains(x) by {
                        if x == k {
                            assert(instance_ids@.take(j + 1)[j as int]@ == x);
                        } else {
                            let w = choose|w: int| 0 <= w < j && #[trigger] instance_ids@.take(j as int)[w]@ == x;
                            assert(instance_ids@.take(j + 1)[w] == instance_ids@.take(j as int)[w]);
                        }
                    }
                }
                assert(self.nonce_manager@.live =~= live0.remove_keys(s1));
                let r0 = live0.restrict(s0);
                let r1 = live0.restrict(s1);
                let f1 = self.nonce_manager@.floor;
                assert forall|x: Seq<char>| #[trigger] r1.dom().contains(x) implies r1[x].end <= f1 by {
                    if x != k || !l_before.dom().contains(k) {
                        if x != k {
                            assert(r0.dom().contains(x));
                        } else {
                            assert(s0.contains(k));
                            assert(r0.dom().contains(x));
                        }
                    }
                }
                if f1 != floor0 {
                    if f1 == f_before {
                        let w = choose|w: Seq<char>| #[trigger] r0.dom().contains(w) && r0[w].end == f_before;
                        assert(r1.dom().contains(w));
                    } else {
                        assert(l_before.dom().contains(k));
                        assert(r1.dom().contains(k));
                    }
                }
            }
            j = j + 1;
        }
        proof {
            assert(instance_ids@.take(instance_ids@.len() as int) =~= instance_ids@);
        }
        Ok(())
    }

    /// Starts a new period: stale XTs of earlier periods that are neither
    /// confirmed nor decided commit are aborted (undecided ones get an abort
    /// decision and owe the publisher an abort vote; those holding local
    /// transactions must be dropped by the builder). The period admission state
    /// restarts at `period_id`.
    pub fn handle_start_period(
        &mut self,
        period_id: PeriodId,
        superblock_num: SuperblockNumber,
        now: u64,
    ) -> (r: StartPeriodOutcome)
        requires
            old(self).state.wf(),
        ensures
            final(self).state.wf(),
            final(self).chain_id == old(self).chain_id,
            final(self).nonce_manager@ == old(self).nonce_manager@,
            final(self).state.pending@ == old(self).state.pending@.map_values(
                |x: PendingXt| rollover_xt(x, period_id, now),
            ),
            final(self).state.pending_map() == Map::new(
                |k: Seq<char>| old(self).state.pending_map().dom().contains(k),
                |k: Seq<char>| rollover_xt(old(self).state.pending_map()[k], period_id, now),
            ),
            r.builder_abort_ids@.map_values(|s: String| s@) == rollover_builder_aborts(
                old(self).state.pending@,
                period_id,
                old(self).chain_id,
            ),
            r.aborted_instance_ids@.map_values(|v: Vec<u8>| v@) == rollover_abort_votes(
                old(self).state.pending@,
                period_id,
            ),
            final(self).state.publisher_period.current == Some(period_id),
            final(self).state.publisher_period.last_sequence is None,
            final(self).state.current_period_id == period_id,
            final(self).state.current_superblock_num == superblock_num,
            final(self).state.origin_seq == old(self).state.origin_seq,
            final(self).state.submitted_fingerprints == old(self).state.submitted_fingerprints,
            final(self).state.pending_submissions == old(self).state.pending_submissions,
            final(self).state.mailbox_buffer == old(self).state.mailbox_buffer,
            final(self).state.chain_states == old(self).state.chain_states,
            final(self).state.chain_overlays@.len() == 0,
    {
        let ghost s0 = self.state.pending@;
        let mut aborted: Vec<Vec<u8>> = Vec::new();
        let mut builder_ids: Vec<String> = Vec::new();
        let mut i: usize = 0;
        while i < self.state.pending.len()
            invariant
                self.chain_id == old(self).chain_id,
                s0 == old(self).state.pending@,
                self.state.same_except_pending(&old(self).state),
                self.nonce_manager == old(self).nonce_manager,
                keys_distinct(s0, |x: PendingXt| xt_key(x)),
                forall|j: int| 0 <= j < s0.len() ==> xt_wf(#[trigger] s0[j]),
                self.state.pending@.len() == s0.len(),
                0 <= i <= s0.len(),
                forall|j: int| 0 <= j < i ==> #[trigger] self.state.pending@[j] == rollover_xt(s0[j], period_id, now),
                forall|j: int| i <= j < s0.len() ==> #[trigger] self.state.pending@[j] == s0[j],
                builder_ids@.map_values(|s: String| s@) == rollover_builder_aborts(
                    s0.take(i as int),
                    period_id,
                    self.chain_id,
                ),
                aborted@.map_values(|v: Vec<u8>| v@) == rollover_abort_votes(s0.take(i as int), period_id),
            decreases s0.len() - i,
        {
            proof {
                assert(s0.take(i + 1).drop_last() =~= s0.take(i as int));
                assert(self.state.pending@[i as int] == s0[i as int]);
            }
            let stale = {
                let x = &self.state.pending[i];
                x.period_id.0 != 0 && x.period_id.0 < period_id.0 && x.confirmed_at.is_none()
                    && !(x.decision == Some(true))
            };
            if stale {
                if crate::xt::carries_txs_for(&self.state.pending[i], self.chain_id) {
                    builder_ids.push(self.state.pending[i].id.clone());
                }
                if self.state.pending[i].decision.is_none() {
                    aborted.push(crate::util::copy_bytes(self.state.pending[i].instance_id.as_slice()));
                    let ghost before = self.state.pending@;
                    let mut xt = self.state.pending.remove(i);
                    xt.record_decision(false, now);
                    self.state.pending.insert(i, xt);
                    proof {
                        assert(self.state.pending@ =~= before.update(i as int, rollover_xt(s0[i as int], period_id, now)));
                    }
                }
            }
            proof {
                assert(builder_ids@.map_values(|s: String| s@) =~= rollover_builder_aborts(
                    s0.take(i + 1),
                    period_id,
                    self.chain_id,
                ));
                assert(aborted@.map_values(|v: Vec<u8>| v@) =~= rollover_abort_votes(s0.take(i + 1), period_id));
            }
            i = i + 1;
        }
        proof {
            assert(s0.take(s0.len() as int) =~= s0);
            assert(self.state.pending@ =~= s0.map_values(|x: PendingXt| rollover_xt(x, period_id, now)));
            lemma_keyed_map_values(s0, |x: PendingXt| xt_key(x), |x: PendingXt| rollover_xt(x, period_id, now));
            assert forall|j: int| 0 <= j < self.state.pending@.len() implies xt_wf(#[trigger] self.state.pending@[j]) by {
                assert(xt_wf(s0[j]));
            }
        }
        self.state.publisher_period.start(period_id);
        self.state.current_period_id = period_id;
        self.state.current_superblock_num = superblock_num;
        self.state.chain_overlays = Vec::new();
        proof {
            crate::keyed::lemma_keyed_empty(|o: crate::coordinator::ChainOverlay| crate::coordinator::overlay_key(o));
        }
        StartPeriodOutcome { aborted_instance_ids: aborted, builder_abort_ids: builder_ids }
    }

    /// Handles a rollback to the last finalized superblock: every undecided XT
    /// is aborted, the period closes (no instance is admitted until the next
    /// start), per-period buffers are cleared, waiting submissions are answered,
    /// and all nonce reservations are wiped.
    pub fn handle_rollback(
        &mut self,
        period_id: PeriodId,
        last_finalized_superblock_num: u64,
        now: u64,
    ) -> (r: RollbackOutcome)
        requires
            old(self).state.wf(),
            last_finalized_superblock_num < u64::MAX,
            old(self).state.pending@.len() <= usize::MAX,
        ensures
            final(self).state.wf(),
            final(self).chain_id == old(self).chain_id,
            final(self).state.pending@ == old(self).state.pending@.map_values(
                |x: PendingXt| rollback_xt(x, now),
            ),
            r.aborted == undecided_count(old(self).state.pending@),
            r.resolved_waiters@ == all_waiters(old(self).state.pending_submissions@),
            final(self).state.publisher_period.current is None,
            final(self).state.publisher_period.last_sequence is None,
            final(self).state.current_period_id == period_id,
            final(self).state.current_superblock_num == SuperblockNumber(
                (last_finalized_superblock_num + 1) as u64,
            ),
            final(self).state.origin_seq == old(self).state.origin_seq,
            final(self).state.submitted_fingerprints == old(self).state.submitted_fingerprints,
            final(self).state.pending_submissions@.len() == 0,
            final(self).state.mailbox_buffer@.len() == 0,
            final(self).state.chain_overlays@.len() == 0,
            final(self).state.chain_states == old(self).state.chain_states,
            final(self).nonce_manager@.floor == 0,
            final(self).nonce_manager@.live.dom().len() == 0,
            final(self).nonce_manager@.recycled.len() == 0,
    {
        let ghost s0 = self.state.pending@;
        let mut aborted: usize = 0;
        let mut i: usize = 0;
        while i < self.state.pending.len()
            invariant
                self.chain_id == old(self).chain_id,
                s0 == old(self).state.pending@,
                self.state.same_except_pending(&old(self).state),
                keys_distinct(s0, |x: PendingXt| xt_key(x)),
                forall|j: int| 0 <= j < s0.len() ==> xt_wf(#[trigger] s0[j]),
                self.state.pending@.len() == s0.len(),
                0 <= i <= s0.len(),
                forall|j: int| 0 <= j < i ==> #[trigger] self.state.pending@[j] == rollback_xt(s0[j], now),
                forall|j: int| i <= j < s0.len() ==> #[trigger] self.state.pending@[j] == s0[j],
                aborted == undecided_count(s0.take(i as int)),
                aborted <= i,
            decreases s0.len() - i,
        {
            proof {
                assert(s0.take(i + 1).drop_last() =~= s0.take(i as int));
                assert(self.state.pending@[i as int] == s0[i as int]);
            }
            if self.state.pending[i].decision.is_none() {
                let ghost before = self.state.pending@;
                let mut xt = self.state.pending.remove(i);
                xt.record_decision(false, now);
                self.state.pending.insert(i, xt);
                aborted = aborted + 1;
                proof {
                    assert(self.state.pending@ =~= before.update(i as int, rollback_xt(s0[i as int], now)));
                }
            }
            i = i + 1;
        }
        proof {
            assert(s0.take(s0.len() as int) =~= s0);
            assert(self.state.pending@ =~= s0.map_values(|x: PendingXt| rollback_xt(x, now)));
            lemma_keyed_map_values(s0, |x: PendingXt| xt_key(x), |x: PendingXt| rollback_xt(x, now));
            assert forall|j: int| 0 <= j < self.state.pending@.len() implies xt_wf(#[trigger] self.state.pending@[j]) by {
                assert(xt_wf(s0[j]));
            }
        }
        let mut waiters: Vec<u64> = Vec::new();
        let mut w: usize = 0;
        while w < self.state.pending_submissions.len()
            invariant
                0 <= w <= self.state.pending_submissions@.len(),
                self.state.pending_submissions == old(self).state.pending_submissions,
                waiters@ == all_waiters(self.state.pending_submissions@.take(w as int)),
            decreases self.state.pending_submissions@.len() - w,
        {
            proof {
                assert(self.state.pending_submissions@.take(w + 1).drop_last() =~= self.state.pending_submissions@.take(w as int));
            }
            let mut k: usize = 0;
            let ghost start = waiters@;
            while k < self.state.pending_submissions[w].waiters.len()
                invariant
                    0 <= k <= self.state.pending_submissions@[w as int].waiters@.len(),
                    w < self.state.pending_submissions@.len(),
                    waiters@ == start + self.state.pending_submissions@[w as int].waiters@.take(k as int),
                decreases self.state.pending_submissions@[w as int].waiters@.len() - k,
            {
                waiters.push(self.state.pending_submissions[w].waiters[k]);
                k = k + 1;
                proof {
                    assert(waiters@ =~= start + self.state.pending_submissions@[w as int].waiters@.take(k as int));
                }
            }
            proof {
                assert(self.state.pending_submissions@[w as int].waiters@.take(k as int) =~= self.state.pending_submissions@[w as int].waiters@);
            }
            w = w + 1;
        }
        proof {
            assert(self.state.pending_submissions@.take(self.state.pending_submissions@.len() as int) =~= self.state.pending_submissions@);
        }
        self.state.publisher_period.close();
        self.state.current_period_id = period_id;
        self.state.current_superblock_num = SuperblockNumber(last_finalized_superblock_num + 1);
        self.state.pending_submissions = Vec::new();
        self.state.mailbox_buffer = Vec::new();
        self.state.chain_overlays = Vec::new();
        self.nonce_manager.reset();
        proof {
            crate::keyed::lemma_keyed_empty(|e: crate::coordinator::SubmissionWaiters| crate::coordinator::sub_key(e));
            crate::keyed::lemma_keyed_empty(|e: crate::coordinator::BufferedMailbox| crate::coordinator::buf_key(e));
            crate::keyed::lemma_keyed_empty(|o: crate::coordinator::ChainOverlay| crate::coordinator::overlay_key(o));
            assert(self.nonce_manager@.live.dom() =~= Set::<Seq<char>>::empty());
        }
        RollbackOutcome { aborted, resolved_waiters: waiters }
    }
}

/// Sets the vote of `chain_id` in a vote table (replacing an earlier vote).
pub(crate) fn set_peer_vote(votes: &mut Vec<PeerVote>, chain_id: ChainId, vote: bool)
    requires
        keys_distinct(old(votes)@, |e: PeerVote| vote_key(e)),
    ensures
        keys_distinct(final(votes)@, |e: PeerVote| vote_key(e)),
        keyed_map(final(votes)@, |e: PeerVote| vote_key(e)) == keyed_map(
            old(votes)@,
            |e: PeerVote| vote_key(e),
        ).insert(chain_id, PeerVote { chain_id, vote }),
        final(votes)@.len() <= old(votes)@.len() + 1,
{
    let mut i: usize = 0;
    while i < votes.len()
        invariant
            0 <= i <= votes@.len(),
            votes@ == old(votes)@,
            keys_distinct(votes@, |e: PeerVote| vote_key(e)),
            forall|j: int| 0 <= j < i ==> #[trigger] votes@[j].chain_id != chain_id,
        decreases votes@.len() - i,
    {
        if votes[i].chain_id == chain_id {
            let ghost before = votes@;
            votes.set(i, PeerVote { chain_id, vote });
            proof {
                crate::keyed::lemma_keyed_update(before, |e: PeerVote| vote_key(e), i as int, PeerVote { chain_id, vote });
            }
            return;
        }
        i = i + 1;
    }
    let ghost before = votes@;
    proof {
        crate::keyed::lemma_keyed_absent(before, |e: PeerVote| vote_key(e), chain_id);
    }
    votes.push(PeerVote { chain_id, vote });
    proof {
        crate::keyed::lemma_keyed_push(before, |e: PeerVote| vote_key(e), PeerVote { chain_id, vote });
    }
}

} // verus!
