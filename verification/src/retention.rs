//! Periodic cleanup: decided XTs past their retention age leave the pending
//! table, and so do the fingerprints, buffered mailbox messages and closed
//! submission waiters that only they kept alive.

use vstd::prelude::*;

use crate::admission::raw_index;
use crate::coordinator::{
    buf_key, fp_key, sub_key, xt_key, BufferedMailbox, CoordinatorState, DefaultCoordinator,
    FingerprintEntry, SubmissionWaiters,
};
use crate::keyed::{keys_distinct, lemma_keyed_remove, lemma_keyed_update};
use crate::util::{
    lemma_filter_take_succ, lemma_retain_done, lemma_retain_start, lemma_retain_step,
    lemma_rewrite_step,
};
use crate::util::str_eq;
use crate::xt::{xt_wf, PendingXt};

verus! {

broadcast use vstd::seq::group_seq_axioms;

/// The time an XT's age is measured from: its confirmation, else its decision.
pub open spec fn settled_at(x: PendingXt) -> Option<u64> {
    if x.confirmed_at is Some {
        x.confirmed_at
    } else {
        x.decided_at
    }
}

/// Whether `x` survives a cleanup at `now`: it is neither confirmed nor
/// decided, or that happened at most `max_age` before `now` (a time after
/// `now` counts as age zero).
pub open spec fn xt_kept(x: PendingXt, now: u64, max_age: u64) -> bool {
    match settled_at(x) {
        None => true,
        Some(t) => now - t <= max_age,
    }
}

/// `xt_kept` as a filter predicate.
pub open spec fn kept_pred(now: u64, max_age: u64) -> spec_fn(PendingXt) -> bool {
    |x: PendingXt| xt_kept(x, now, max_age)
}

/// What cleanup keeps of a table: every XT neither decided nor confirmed, and
/// every XT settled at most `max_age` before `now`; it keeps nothing else and
/// adds nothing.
pub proof fn lemma_cleanup_keeps(s: Seq<PendingXt>, now: u64, max_age: u64, x: PendingXt)
    ensures
        s.contains(x) && settled_at(x) is None ==> s.filter(kept_pred(now, max_age)).contains(x),
        s.contains(x) && xt_kept(x, now, max_age) ==> s.filter(kept_pred(now, max_age)).contains(x),
        s.filter(kept_pred(now, max_age)).contains(x) ==> s.contains(x) && xt_kept(x, now, max_age),
{
    let p = kept_pred(now, max_age);
    if s.contains(x) && xt_kept(x, now, max_age) {
        let i = choose|i: int| 0 <= i < s.len() && s[i] == x;
        s.lemma_filter_contains(p, i);
    }
    if s.filter(p).contains(x) {
        s.lemma_filter_contains_rev(p, x);
        let j = choose|j: int| 0 <= j < s.filter(p).len() && s.filter(p)[j] == x;
        s.lemma_filter_pred(p, j);
    }
}

/// A fingerprint entry stays while its XT is registered in `pending`.
pub open spec fn fingerprint_owned(pending: Map<Seq<char>, PendingXt>) -> spec_fn(
    FingerprintEntry,
) -> bool {
    |e: FingerprintEntry| pending.dom().contains(e.instance_id@)
}

/// A buffered-mailbox entry stays while an XT with its raw id is registered.
pub open spec fn buffer_owned(pending: Seq<PendingXt>) -> spec_fn(BufferedMailbox) -> bool {
    |b: BufferedMailbox| raw_index(pending, b.instance_id@) is Some
}

/// A fingerprint entry that does not point at the XT `id`.
pub open spec fn not_for(id: Seq<char>) -> spec_fn(FingerprintEntry) -> bool {
    |e: FingerprintEntry| e.instance_id@ != id
}

/// A ticket is open when it is not among `closed`.
pub open spec fn open_pred(closed: Seq<u64>) -> spec_fn(u64) -> bool {
    |t: u64| !closed.contains(t)
}

/// The tickets of `w` that are still open, in order.
pub open spec fn open_tickets(w: Seq<u64>, closed: Seq<u64>) -> Seq<u64> {
    w.filter(open_pred(closed))
}

/// A waiter entry viewed as its fingerprint and tickets.
pub open spec fn waiter_view(e: SubmissionWaiters) -> (Seq<char>, Seq<u64>) {
    (e.fingerprint@, e.waiters@)
}

/// The waiter table viewed entry by entry.
pub open spec fn waiter_views(s: Seq<SubmissionWaiters>) -> Seq<(Seq<char>, Seq<u64>)> {
    s.map_values(|e: SubmissionWaiters| waiter_view(e))
}

/// A waiter entry with its closed tickets dropped.
pub open spec fn prune_fn(closed: Seq<u64>) -> spec_fn((Seq<char>, Seq<u64>)) -> (
    Seq<char>,
    Seq<u64>,
) {
    |w: (Seq<char>, Seq<u64>)| (w.0, open_tickets(w.1, closed))
}

/// An entry that still has a ticket.
pub open spec fn nonempty_pred() -> spec_fn((Seq<char>, Seq<u64>)) -> bool {
    |w: (Seq<char>, Seq<u64>)| w.1.len() > 0
}

/// The waiter table after dropping closed tickets and then the entries left
/// without any.
pub open spec fn pruned_waiters(s: Seq<(Seq<char>, Seq<u64>)>, closed: Seq<u64>) -> Seq<
    (Seq<char>, Seq<u64>),
> {
    s.map_values(prune_fn(closed)).filter(nonempty_pred())
}

/// The time an XT's age is measured from.
fn settled_time(x: &PendingXt) -> (r: Option<u64>)
    ensures
        r == settled_at(*x),
{
    if x.confirmed_at.is_some() {
        x.confirmed_at
    } else {
        x.decided_at
    }
}

/// Whether `x` survives a cleanup at `now`.
fn is_kept(x: &PendingXt, now: u64, max_age: u64) -> (b: bool)
    ensures
        b == xt_kept(*x, now, max_age),
{
    match settled_time(x) {
        None => true,
        Some(t) => now.saturating_sub(t) <= max_age,
    }
}

/// Whether `t` is among `closed`.
fn ticket_closed(closed: &[u64], t: u64) -> (b: bool)
    ensures
        b == closed@.contains(t),
{
    let mut i: usize = 0;
    while i < closed.len()
        invariant
            0 <= i <= closed@.len(),
            forall|k: int| 0 <= k < i ==> closed@[k] != t,
        decreases closed@.len() - i,
    {
        if closed[i] == t {
            assert(closed@[i as int] == t);
            return true;
        }
        i = i + 1;
    }
    false
}

/// The tickets of `w` that are not among `closed`, in order.
fn keep_open(w: &Vec<u64>, closed: &[u64]) -> (r: Vec<u64>)
    ensures
        r@ == open_tickets(w@, closed@),
{
    let ghost p = open_pred(closed@);
    let mut out: Vec<u64> = Vec::new();
    let mut k: usize = 0;
    proof {
        lemma_retain_start(w@, p);
    }
    while k < w.len()
        invariant
            p == open_pred(closed@),
            0 <= k <= w@.len(),
            out@ == w@.take(k as int).filter(p),
        decreases w@.len() - k,
    {
        proof {
            lemma_filter_take_succ(w@, p, k as int);
        }
        if !ticket_closed(closed, w[k]) {
            out.push(w[k]);
        }
        k = k + 1;
    }
    proof {
        assert(w@.take(w@.len() as int) =~= w@);
    }
    out
}

impl CoordinatorState {
    /// Drops the XTs that a cleanup at `now` does not keep.
    fn retain_recent(&mut self, now: u64, max_age: u64)
        requires
            old(self).wf(),
        ensures
            final(self).wf(),
            final(self).pending@ == old(self).pending@.filter(kept_pred(now, max_age)),
            final(self).same_except_pending(old(self)),
    {
        let ghost s0 = self.pending@;
        let ghost p = kept_pred(now, max_age);
        proof {
            lemma_retain_start(s0, p);
        }
        let mut i: usize = 0;
        let ghost mut j: int = 0;
        while i < self.pending.len()
            invariant
                s0 == old(self).pending@,
                p == kept_pred(now, max_age),
                0 <= j <= s0.len(),
                self.pending@ == s0.take(j).filter(p) + s0.skip(j),
                i == s0.take(j).filter(p).len(),
                keys_distinct(self.pending@, |x: PendingXt| xt_key(x)),
                forall|k: int| 0 <= k < self.pending@.len() ==> xt_wf(#[trigger] self.pending@[k]),
                self.same_except_pending(old(self)),
            decreases self.pending@.len() - i,
        {
            proof {
                lemma_retain_step(s0, self.pending@, p, j, i as int);
            }
            if is_kept(&self.pending[i], now, max_age) {
                i = i + 1;
            } else {
                let ghost before = self.pending@;
                let _ = self.pending.remove(i);
                proof {
                    lemma_keyed_remove(before, |x: PendingXt| xt_key(x), i as int);
                    assert forall|k: int| 0 <= k < self.pending@.len() implies xt_wf(
                        #[trigger] self.pending@[k],
                    ) by {
                        if k < i {
                            assert(self.pending@[k] == before[k]);
                        } else {
                            assert(self.pending@[k] == before[k + 1]);
                        }
                    }
                }
            }
            proof {
                j = j + 1;
            }
        }
        proof {
            lemma_retain_done(s0, self.pending@, p, j);
        }
    }

    /// Drops the fingerprints whose XT is no longer registered.
    fn retain_owned_fingerprints(&mut self)
        requires
            old(self).wf(),
        ensures
            final(self).wf(),
            final(self).submitted_fingerprints@ == old(self).submitted_fingerprints@.filter(
                fingerprint_owned(old(self).pending_map()),
            ),
            final(self).pending == old(self).pending,
            final(self).publisher_period == old(self).publisher_period,
            final(self).current_period_id == old(self).current_period_id,
            final(self).current_superblock_num == old(self).current_superblock_num,
            final(self).origin_seq == old(self).origin_seq,
            final(self).pending_submissions == old(self).pending_submissions,
            final(self).mailbox_buffer == old(self).mailbox_buffer,
            final(self).chain_states == old(self).chain_states,
            final(self).chain_overlays == old(self).chain_overlays,
    {
        let ghost s0 = self.submitted_fingerprints@;
        let ghost p = fingerprint_owned(self.pending_map());
        proof {
            lemma_retain_start(s0, p);
        }
        let mut i: usize = 0;
        let ghost mut j: int = 0;
        while i < self.submitted_fingerprints.len()
            invariant
                s0 == old(self).submitted_fingerprints@,
                p == fingerprint_owned(old(self).pending_map()),
                0 <= j <= s0.len(),
                self.submitted_fingerprints@ == s0.take(j).filter(p) + s0.skip(j),
                i == s0.take(j).filter(p).len(),
                self.wf(),
                self.pending == old(self).pending,
                self.publisher_period == old(self).publisher_period,
                self.current_period_id == old(self).current_period_id,
                self.current_superblock_num == old(self).current_superblock_num,
                self.origin_seq == old(self).origin_seq,
                self.pending_submissions == old(self).pending_submissions,
                self.mailbox_buffer == old(self).mailbox_buffer,
                self.chain_states == old(self).chain_states,
                self.chain_overlays == old(self).chain_overlays,
            decreases self.submitted_fingerprints@.len() - i,
        {
            proof {
                lemma_retain_step(s0, self.submitted_fingerprints@, p, j, i as int);
            }
            if self.find_pending(self.submitted_fingerprints[i].instance_id.as_str()).is_some() {
                i = i + 1;
            } else {
                let ghost before = self.submitted_fingerprints@;
                let _ = self.submitted_fingerprints.remove(i);
                proof {
                    lemma_keyed_remove(before, |e: FingerprintEntry| fp_key(e), i as int);
                }
            }
            proof {
                j = j + 1;
            }
        }
        proof {
            lemma_retain_done(s0, self.submitted_fingerprints@, p, j);
        }
    }

    /// Drops the fingerprints that point at the XT `id`.
    fn retain_fingerprints_not_for(&mut self, id: &str)
        requires
            old(self).wf(),
        ensures
            final(self).wf(),
            final(self).submitted_fingerprints@ == old(self).submitted_fingerprints@.filter(
                not_for(id@),
            ),
            final(self).pending == old(self).pending,
            final(self).publisher_period == old(self).publisher_period,
            final(self).current_period_id == old(self).current_period_id,
            final(self).current_superblock_num == old(self).current_superblock_num,
            final(self).origin_seq == old(self).origin_seq,
            final(self).pending_submissions == old(self).pending_submissions,
            final(self).mailbox_buffer == old(self).mailbox_buffer,
            final(self).chain_states == old(self).chain_states,
            final(self).chain_overlays == old(self).chain_overlays,
    {
        let ghost s0 = self.submitted_fingerprints@;
        let ghost p = not_for(id@);
        proof {
            lemma_retain_start(s0, p);
        }
        let mut i: usize = 0;
        let ghost mut j: int = 0;
        while i < self.submitted_fingerprints.len()
            invariant
                s0 == old(self).submitted_fingerprints@,
                p == not_for(id@),
                0 <= j <= s0.len(),
                self.submitted_fingerprints@ == s0.take(j).filter(p) + s0.skip(j),
                i == s0.take(j).filter(p).len(),
                self.wf(),
                self.pending == old(self).pending,
                self.publisher_period == old(self).publisher_period,
                self.current_period_id == old(self).current_period_id,
                self.current_superblock_num == old(self).current_superblock_num,
                self.origin_seq == old(self).origin_seq,
                self.pending_submissions == old(self).pending_submissions,
                self.mailbox_buffer == old(self).mailbox_buffer,
                self.chain_states == old(self).chain_states,
                self.chain_overlays == old(self).chain_overlays,
            decreases self.submitted_fingerprints@.len() - i,
        {
            proof {
                lemma_retain_step(s0, self.submitted_fingerprints@, p, j, i as int);
            }
            if !str_eq(self.submitted_fingerprints[i].instance_id.as_str(), id) {
                i = i + 1;
            } else {
                let ghost before = self.submitted_fingerprints@;
                let _ = self.submitted_fingerprints.remove(i);
                proof {
                    lemma_keyed_remove(before, |e: FingerprintEntry| fp_key(e), i as int);
                }
            }
            proof {
                j = j + 1;
            }
        }
        proof {
            lemma_retain_done(s0, self.submitted_fingerprints@, p, j);
        }
    }

    /// Drops the buffered mailbox messages whose raw id no registered XT has.
    fn retain_owned_buffers(&mut self)
        requires
            old(self).wf(),
        ensures
            final(self).wf(),
            final(self).mailbox_buffer@ == old(self).mailbox_buffer@.filter(
                buffer_owned(old(self).pending@),
            ),
            final(self).pending == old(self).pending,
            final(self).publisher_period == old(self).publisher_period,
            final(self).current_period_id == old(self).current_period_id,
            final(self).current_superblock_num == old(self).current_superblock_num,
            final(self).origin_seq == old(self).origin_seq,
            final(self).submitted_fingerprints == old(self).submitted_fingerprints,
            final(self).pending_submissions == old(self).pending_submissions,
            final(self).chain_states == old(self).chain_states,
            final(self).chain_overlays == old(self).chain_overlays,
    {
        let ghost s0 = self.mailbox_buffer@;
        let ghost p = buffer_owned(self.pending@);
        proof {
            lemma_retain_start(s0, p);
        }
        let mut i: usize = 0;
        let ghost mut j: int = 0;
        while i < self.mailbox_buffer.len()
            invariant
                s0 == old(self).mailbox_buffer@,
                p == buffer_owned(old(self).pending@),
                0 <= j <= s0.len(),
                self.mailbox_buffer@ == s0.take(j).filter(p) + s0.skip(j),
                i == s0.take(j).filter(p).len(),
                self.wf(),
                self.pending == old(self).pending,
                self.publisher_period == old(self).publisher_period,
                self.current_period_id == old(self).current_period_id,
                self.current_superblock_num == old(self).current_superblock_num,
                self.origin_seq == old(self).origin_seq,
                self.submitted_fingerprints == old(self).submitted_fingerprints,
                self.pending_submissions == old(self).pending_submissions,
                self.chain_states == old(self).chain_states,
                self.chain_overlays == old(self).chain_overlays,
            decreases self.mailbox_buffer@.len() - i,
        {
            proof {
                lemma_retain_step(s0, self.mailbox_buffer@, p, j, i as int);
            }
            if self.find_raw(self.mailbox_buffer[i].instance_id.as_slice()).is_some() {
                i = i + 1;
            } else {
                let ghost before = self.mailbox_buffer@;
                let _ = self.mailbox_buffer.remove(i);
                proof {
                    lemma_keyed_remove(before, |e: BufferedMailbox| buf_key(e), i as int);
                }
            }
            proof {
                j = j + 1;
            }
        }
        proof {
            lemma_retain_done(s0, self.mailbox_buffer@, p, j);
        }
    }

    /// Drops the closed waiter tickets, then the entries left without any.
    fn prune_closed_waiters(&mut self, closed: &[u64])
        requires
            old(self).wf(),
        ensures
            final(self).wf(),
            waiter_views(final(self).pending_submissions@) == pruned_waiters(
                waiter_views(old(self).pending_submissions@),
                closed@,
            ),
            final(self).pending == old(self).pending,
            final(self).publisher_period == old(self).publisher_period,
            final(self).current_period_id == old(self).current_period_id,
            final(self).current_superblock_num == old(self).current_superblock_num,
            final(self).origin_seq == old(self).origin_seq,
            final(self).submitted_fingerprints == old(self).submitted_fingerprints,
            final(self).mailbox_buffer == old(self).mailbox_buffer,
            final(self).chain_states == old(self).chain_states,
            final(self).chain_overlays == old(self).chain_overlays,
    {
        let ghost v0 = waiter_views(self.pending_submissions@);
        let ghost s = v0.map_values(prune_fn(closed@));
        let ghost p = nonempty_pred();
        proof {
            lemma_retain_start(s, p);
            assert(v0 =~= s.take(0).filter(p) + v0.skip(0));
        }
        let mut i: usize = 0;
        let ghost mut j: int = 0;
        while i < self.pending_submissions.len()
            invariant
                v0 == waiter_views(old(self).pending_submissions@),
                s == v0.map_values(prune_fn(closed@)),
                p == nonempty_pred(),
                0 <= j <= s.len(),
                waiter_views(self.pending_submissions@) == s.take(j).filter(p) + v0.skip(j),
                i == s.take(j).filter(p).len(),
                self.wf(),
                self.pending == old(self).pending,
                self.publisher_period == old(self).publisher_period,
                self.current_period_id == old(self).current_period_id,
                self.current_superblock_num == old(self).current_superblock_num,
                self.origin_seq == old(self).origin_seq,
                self.submitted_fingerprints == old(self).submitted_fingerprints,
                self.mailbox_buffer == old(self).mailbox_buffer,
                self.chain_states == old(self).chain_states,
                self.chain_overlays == old(self).chain_overlays,
            decreases self.pending_submissions@.len() - i,
        {
            let ghost before = self.pending_submissions@;
            proof {
                lemma_rewrite_step(s, v0, waiter_views(before), p, j, i as int);
                assert(waiter_views(before)[i as int] == waiter_view(before[i as int]));
            }
            let open = keep_open(&self.pending_submissions[i].waiters, closed);
            let mut entry = self.pending_submissions.remove(i);
            if open.len() > 0 {
                entry.waiters = open;
                self.pending_submissions.insert(i, entry);
                proof {
                    assert(self.pending_submissions@ =~= before.update(i as int, entry));
                    lemma_keyed_update(before, |e: SubmissionWaiters| sub_key(e), i as int, entry);
                    assert(waiter_views(self.pending_submissions@) =~= waiter_views(before).update(
                        i as int,
                        s[j],
                    ));
                }
                i = i + 1;
            } else {
                proof {
                    lemma_keyed_remove(before, |e: SubmissionWaiters| sub_key(e), i as int);
                    assert(waiter_views(self.pending_submissions@) =~= waiter_views(before).remove(
                        i as int,
                    ));
                }
            }
            proof {
                j = j + 1;
            }
        }
        proof {
            assert(v0.skip(j).len() == 0);
            assert(s.take(j) =~= s);
            assert(waiter_views(self.pending_submissions@) =~= s.filter(p));
        }
    }
}

/// What cleanup at `now` does to the state `pre`, giving `post`: the XTs
/// confirmed (else decided) more than `max_age_ms` earlier are dropped, then
/// the fingerprints and buffered mailbox messages of XTs no longer registered,
/// then the tickets in `closed` and the waiter entries left without tickets;
/// nothing else changes.
pub open spec fn cleaned_up(
    pre: CoordinatorState,
    post: CoordinatorState,
    max_age_ms: u64,
    now: u64,
    closed: Seq<u64>,
) -> bool {
    &&& post.pending@ == pre.pending@.filter(kept_pred(now, max_age_ms))
    &&& post.submitted_fingerprints@ == pre.submitted_fingerprints@.filter(
        fingerprint_owned(post.pending_map()),
    )
    &&& post.mailbox_buffer@ == pre.mailbox_buffer@.filter(buffer_owned(post.pending@))
    &&& waiter_views(post.pending_submissions@) == pruned_waiters(
        waiter_views(pre.pending_submissions@),
        closed,
    )
    &&& post.publisher_period == pre.publisher_period
    &&& post.current_period_id == pre.current_period_id
    &&& post.current_superblock_num == pre.current_superblock_num
    &&& post.origin_seq == pre.origin_seq
    &&& post.chain_states == pre.chain_states
    &&& post.chain_overlays == pre.chain_overlays
}

/// After cleanup no table points at a dropped XT: every fingerprint left
/// names a registered XT, and every buffered mailbox entry left carries the
/// raw id of a registered XT.
pub proof fn lemma_cleanup_leaves_no_dangling_entry(
    pre: CoordinatorState,
    post: CoordinatorState,
    max_age_ms: u64,
    now: u64,
    closed: Seq<u64>,
)
    requires
        cleaned_up(pre, post, max_age_ms, now, closed),
    ensures
        forall|i: int|
            0 <= i < post.submitted_fingerprints@.len() ==> post.pending_map().dom().contains(
                (#[trigger] post.submitted_fingerprints@[i]).instance_id@,
            ),
        forall|i: int|
            0 <= i < post.mailbox_buffer@.len() ==> raw_index(
                post.pending@,
                (#[trigger] post.mailbox_buffer@[i]).instance_id@,
            ) is Some,
{
    let fpred = fingerprint_owned(post.pending_map());
    let bpred = buffer_owned(post.pending@);
    assert forall|i: int| 0 <= i < post.submitted_fingerprints@.len() implies post.pending_map().dom().contains(
        (#[trigger] post.submitted_fingerprints@[i]).instance_id@,
    ) by {
        pre.submitted_fingerprints@.lemma_filter_pred(fpred, i);
    }
    assert forall|i: int| 0 <= i < post.mailbox_buffer@.len() implies raw_index(
        post.pending@,
        (#[trigger] post.mailbox_buffer@[i]).instance_id@,
    ) is Some by {
        pre.mailbox_buffer@.lemma_filter_pred(bpred, i);
    }
}

impl DefaultCoordinator {
    /// Cleanup at time `now`: drops the XTs confirmed (else decided) more
    /// than `max_age_ms` earlier, then the fingerprints and buffered mailbox
    /// messages of XTs no longer registered, then the waiter tickets listed in
    /// `closed_tickets` and the waiter entries left without tickets.
    pub fn cleanup(&mut self, max_age_ms: u64, now: u64, closed_tickets: &[u64])
        requires
            old(self).state.wf(),
        ensures
            final(self).state.wf(),
            cleaned_up(old(self).state, final(self).state, max_age_ms, now, closed_tickets@),
            final(self).chain_id == old(self).chain_id,
            final(self).circ_timeout_ms == old(self).circ_timeout_ms,
            final(self).verification == old(self).verification,
            final(self).nonce_manager == old(self).nonce_manager,
    {
        self.state.retain_recent(now, max_age_ms);
        self.state.retain_owned_fingerprints();
        self.state.retain_owned_buffers();
        self.state.prune_closed_waiters(closed_tickets);
    }

    /// Removes the XT `id` together with the fingerprints that point at it,
    /// and drops the waiter tickets listed in `closed_tickets` (and the waiter
    /// entries left without tickets). Returns whether the XT was registered;
    /// when it was not, nothing changes.
    pub fn remove_pending_xt(&mut self, id: &str, closed_tickets: &[u64]) -> (removed: bool)
        requires
            old(self).state.wf(),
        ensures
            final(self).state.wf(),
            removed == old(self).state.pending_map().dom().contains(id@),
            !removed ==> final(self).state == old(self).state,
            removed ==> final(self).state.pending_map() == old(self).state.pending_map().remove(
                id@,
            ),
            removed ==> final(self).state.submitted_fingerprints@
                == old(self).state.submitted_fingerprints@.filter(not_for(id@)),
            removed ==> waiter_views(final(self).state.pending_submissions@) == pruned_waiters(
                waiter_views(old(self).state.pending_submissions@),
                closed_tickets@,
            ),
            final(self).state.mailbox_buffer == old(self).state.mailbox_buffer,
            final(self).state.publisher_period == old(self).state.publisher_period,
            final(self).state.current_period_id == old(self).state.current_period_id,
            final(self).state.current_superblock_num == old(self).state.current_superblock_num,
            final(self).state.origin_seq == old(self).state.origin_seq,
            final(self).state.chain_states == old(self).state.chain_states,
            final(self).state.chain_overlays == old(self).state.chain_overlays,
            final(self).chain_id == old(self).chain_id,
            final(self).circ_timeout_ms == old(self).circ_timeout_ms,
            final(self).verification == old(self).verification,
            final(self).nonce_manager == old(self).nonce_manager,
    {
        if !self.state.remove_pending_xt(id) {
            return false;
        }
        self.state.retain_fingerprints_not_for(id);
        self.state.prune_closed_waiters(closed_tickets);
        true
    }
}

} // verus!
