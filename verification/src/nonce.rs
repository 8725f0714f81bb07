//! Per-XT nonce reservations for sidecar-signed `putInbox` transactions.
//!
//! Each reservation is owned by an XT instance and freed only by an explicit
//! lifecycle event (`release_confirmed` on canonical inclusion, `release_aborted`
//! when the builder aborts the XT before its putInbox could land). Aborted
//! ranges are recycled so the next XT can reissue the same nonce instead of
//! stranding the lane behind a permanent gap. The canonical chain nonce is
//! used only as a lower bound: it can never move the cursor backwards under
//! a live reservation.
//!
//! The canonical nonce is read from the chain by the caller (the read is I/O)
//! and handed to [`DeferredNonceManager::reserve`], which holds the decision.

use vstd::prelude::*;

use crate::util::str_eq;

verus! {

broadcast use vstd::seq::group_seq_axioms;

/// A contiguous run of reserved nonces `[start, end)`.
#[derive(Debug, Clone, Copy, PartialEq, Eq, Structural)]
pub struct ReservedRange {
    pub start: u64,
    pub end: u64,
}

/// The reservation held by one XT instance.
#[derive(Debug)]
struct LiveReservation {
    instance_id: String,
    range: ReservedRange,
}

/// Nonce reservation state for the sidecar's `putInbox` signer.
#[derive(Debug)]
pub struct DeferredNonceManager {
    canonical_floor: u64,
    initialized: bool,
    live: Vec<LiveReservation>,
    recycled: Vec<u64>,
}

/// Abstract state of a [`DeferredNonceManager`].
pub struct NonceView {
    /// Highest canonical nonce seen (or confirmed end); never lowered except by `reset`.
    pub floor: u64,
    /// Whether a reservation has ever been made since construction or reset.
    pub initialized: bool,
    /// Live reservations keyed by instance id.
    pub live: Map<Seq<char>, ReservedRange>,
    /// Nonces freed by aborted XTs and available for reuse.
    pub recycled: Set<u64>,
}

/// `n` lies in the half-open range `r`.
pub open spec fn range_contains(r: ReservedRange, n: u64) -> bool {
    r.start <= n && n < r.end
}

/// The half-open ranges `a` and `b` share no nonce.
pub open spec fn ranges_disjoint(a: ReservedRange, b: ReservedRange) -> bool {
    a.end <= b.start || b.end <= a.start || a.end <= a.start || b.end <= b.start
}

/// Live reservations whose range still ends above the floor `f`.
pub open spec fn trim_live(live: Map<Seq<char>, ReservedRange>, f: u64) -> Map<
    Seq<char>,
    ReservedRange,
> {
    Map::new(|k: Seq<char>| live.dom().contains(k) && live[k].end > f, |k: Seq<char>| live[k])
}

/// Recycled nonces at or above the floor `f`.
pub open spec fn trim_recycled(rec: Set<u64>, f: u64) -> Set<u64> {
    rec.filter(|n: u64| n >= f)
}

/// `e` is the maximum of `f` and every live range end.
pub open spec fn is_live_end(live: Map<Seq<char>, ReservedRange>, f: u64, e: u64) -> bool {
    &&& e >= f
    &&& forall|k: Seq<char>| #[trigger] live.dom().contains(k) ==> live[k].end <= e
    &&& (e == f || exists|k: Seq<char>| #[trigger] live.dom().contains(k) && live[k].end == e)
}

/// `r` is the least element of `rec`.
pub open spec fn is_least(rec: Set<u64>, r: u64) -> bool {
    rec.contains(r) && forall|n: u64| #[trigger] rec.contains(n) ==> r <= n
}

/// `a + b`, saturating at `u64::MAX`.
pub open spec fn sat_add(a: u64, b: u64) -> u64 {
    if a + b > u64::MAX {
        u64::MAX
    } else {
        (a + b) as u64
    }
}

/// The larger of two nonces.
pub open spec fn max_u64(a: u64, b: u64) -> u64 {
    if a >= b {
        a
    } else {
        b
    }
}

/// What every reachable state keeps: live reservations never share a nonce,
/// and no recycled nonce is held by a live reservation.
pub open spec fn nonce_state_sound(v: NonceView) -> bool {
    &&& forall|k1: Seq<char>, k2: Seq<char>|
        #![trigger v.live[k1], v.live[k2]]
        v.live.dom().contains(k1) && v.live.dom().contains(k2) && k1 != k2 ==> ranges_disjoint(
            v.live[k1],
            v.live[k2],
        )
    &&& forall|k: Seq<char>, n: u64|
        #![trigger v.live[k], v.recycled.contains(n)]
        v.live.dom().contains(k) && v.recycled.contains(n) ==> !range_contains(v.live[k], n)
}

/// What `reserve(id, count, canonical)` does to the state `m0`, giving `m1`
/// and the starting nonce `start`.
pub open spec fn reserve_rel(
    m0: NonceView,
    m1: NonceView,
    id: Seq<char>,
    count: nat,
    canonical: u64,
    start: u64,
) -> bool {
    let f = max_u64(m0.floor, canonical);
    let live1 = trim_live(m0.live, f);
    let rec1 = trim_recycled(m0.recycled, f);
    let end = sat_add(start, count as u64);
    &&& m1.floor == f
    &&& m1.initialized
    &&& (count == 1 && !rec1.is_empty()) ==> is_least(rec1, start)
    &&& !(count == 1 && !rec1.is_empty()) ==> is_live_end(live1, f, start)
    &&& m1.live == live1.insert(id, ReservedRange { start, end })
    &&& m1.recycled == rec1.filter(|n: u64| !(start <= n && n < end))
    &&& start >= canonical
    &&& start >= m0.floor
}

/// What `release_aborted(id)` does to the state `m0`, giving `m1`.
pub open spec fn abort_rel(m0: NonceView, m1: NonceView, id: Seq<char>) -> bool {
    &&& m1.floor == m0.floor
    &&& m1.initialized == m0.initialized
    &&& m1.live == m0.live.remove(id)
    &&& m0.live.dom().contains(id) ==> m1.recycled == m0.recycled.union(
        Set::new(|n: u64| range_contains(m0.live[id], n) && n >= m0.floor),
    )
    &&& !m0.live.dom().contains(id) ==> m1.recycled == m0.recycled
}

/// What `release_confirmed(id)` does to the state `m0`, giving `m1`.
pub open spec fn confirm_rel(m0: NonceView, m1: NonceView, id: Seq<char>) -> bool {
    &&& m0.live.dom().contains(id) ==> m1.floor == max_u64(m0.floor, m0.live[id].end)
    &&& !m0.live.dom().contains(id) ==> m1.floor == m0.floor
    &&& m1.live == m0.live.remove(id)
    &&& m1.recycled == m0.recycled
    &&& m1.initialized == m0.initialized
}

/// A call on the nonce manager, with the start a reservation returned.
pub enum NonceOp {
    Reserve { id: Seq<char>, count: nat, canonical: u64, start: u64 },
    Confirm { id: Seq<char> },
    Abort { id: Seq<char> },
}

/// The call `op` takes the state `m0` to `m1` (as the methods' contracts
/// say), leaving a sound state.
pub open spec fn nonce_op_rel(m0: NonceView, op: NonceOp, m1: NonceView) -> bool {
    &&& nonce_state_sound(m1)
    &&& match op {
        NonceOp::Reserve { id, count, canonical, start } => count > 0 && reserve_rel(
            m0,
            m1,
            id,
            count,
            canonical,
            start,
        ),
        NonceOp::Confirm { id } => confirm_rel(m0, m1, id),
        NonceOp::Abort { id } => abort_rel(m0, m1, id),
    }
}

/// The reservation `id` holds `[start, start + count)` in `m`, shares no
/// nonce with another live reservation, and, for more than one nonce,
/// starts after every other live reservation.
pub open spec fn reservation_placed(m: NonceView, id: Seq<char>, count: nat, start: u64) -> bool {
    let r = ReservedRange { start, end: sat_add(start, count as u64) };
    &&& m.live.dom().contains(id) && m.live[id] == r
    &&& forall|o: Seq<char>|
        #[trigger] m.live.dom().contains(o) && o != id ==> ranges_disjoint(m.live[o], r)
    &&& count > 1 ==> forall|o: Seq<char>|
        #[trigger] m.live.dom().contains(o) && o != id ==> m.live[o].end <= start
}

/// Over any run of calls since `new()` or the last `reset()`: the floor
/// never goes down; a reservation starts at or above every canonical nonce
/// given to an earlier or the same reservation and every end confirmed
/// before it; its run of nonces is shared with no other live reservation,
/// and a run of more than one nonce starts after every live reservation;
/// and no state of the run has two live reservations sharing a nonce.
pub proof fn lemma_nonce_run(ms: Seq<NonceView>, ops: Seq<NonceOp>)
    requires
        ms.len() == ops.len() + 1,
        ms[0].live == Map::<Seq<char>, ReservedRange>::empty(),
        forall|k: int| 0 <= k < ops.len() ==> nonce_op_rel(ms[k], #[trigger] ops[k], ms[k + 1]),
    ensures
        forall|i: int, j: int| 0 <= i <= j < ms.len() ==> #[trigger] ms[i].floor <= #[trigger] ms[j].floor,
        forall|i: int, k: int|
            #![trigger ops[i], ops[k]]
            0 <= i <= k < ops.len() && ops[i] is Reserve && ops[k] is Reserve
                ==> ops[i]->Reserve_canonical <= ops[k]->Reserve_start,
        forall|i: int, k: int|
            #![trigger ops[i], ops[k]]
            0 <= i < k < ops.len() && ops[i] is Confirm && ms[i].live.dom().contains(
                ops[i]->Confirm_id,
            ) && ops[k] is Reserve ==> ms[i].live[ops[i]->Confirm_id].end <= ops[k]->Reserve_start,
        forall|k: int|
            0 <= k < ops.len() && (#[trigger] ops[k]) is Reserve ==> reservation_placed(
                ms[k + 1],
                ops[k]->Reserve_id,
                ops[k]->Reserve_count,
                ops[k]->Reserve_start,
            ),
        forall|j: int| 0 <= j < ms.len() ==> nonce_state_sound(#[trigger] ms[j]),
    decreases ops.len(),
{
    if ops.len() > 0 {
        let n = ops.len() - 1;
        let ms0 = ms.drop_last();
        let ops0 = ops.drop_last();
        assert forall|k: int| 0 <= k < ops0.len() implies nonce_op_rel(ms0[k], #[trigger] ops0[k], ms0[k + 1]) by {
            assert(ops0[k] == ops[k]);
            assert(ms0[k] == ms[k] && ms0[k + 1] == ms[k + 1]);
            assert(nonce_op_rel(ms[k], ops[k], ms[k + 1]));
        }
        lemma_nonce_run(ms0, ops0);
        assert(nonce_op_rel(ms[n], ops[n], ms[n + 1]));
        assert(ms[n].floor <= ms[n + 1].floor);
        assert forall|i: int, j: int| 0 <= i <= j < ms.len() implies #[trigger] ms[i].floor <= #[trigger] ms[j].floor by {
            if j < ms.len() - 1 {
                assert(ms0[i] == ms[i] && ms0[j] == ms[j]);
                assert(ms0[i].floor <= ms0[j].floor);
            } else if i < j {
                assert(ms0[i] == ms[i] && ms0[n] == ms[n]);
                assert(ms0[i].floor <= ms0[n].floor);
            }
        }
        assert forall|i: int, k: int|
            #![trigger ops[i], ops[k]]
            0 <= i <= k < ops.len() && ops[i] is Reserve && ops[k] is Reserve
                implies ops[i]->Reserve_canonical <= ops[k]->Reserve_start by {
            if k < n {
                assert(ops0[i] == ops[i] && ops0[k] == ops[k]);
            } else if i < n {
                assert(nonce_op_rel(ms[i], ops[i], ms[i + 1]));
                assert(ms0[i + 1] == ms[i + 1] && ms0[n] == ms[n]);
                assert(ms0[i + 1].floor <= ms0[n].floor);
            }
        }
        assert forall|i: int, k: int|
            #![trigger ops[i], ops[k]]
            0 <= i < k < ops.len() && ops[i] is Confirm && ms[i].live.dom().contains(
                ops[i]->Confirm_id,
            ) && ops[k] is Reserve implies ms[i].live[ops[i]->Confirm_id].end <= ops[k]->Reserve_start by {
            if k < n {
                assert(ops0[i] == ops[i] && ops0[k] == ops[k]);
                assert(ms0[i] == ms[i]);
            } else {
                assert(nonce_op_rel(ms[i], ops[i], ms[i + 1]));
                assert(ms0[i + 1] == ms[i + 1] && ms0[n] == ms[n]);
                assert(ms0[i + 1].floor <= ms0[n].floor);
            }
        }
        assert forall|k: int|
            0 <= k < ops.len() && (#[trigger] ops[k]) is Reserve implies reservation_placed(
                ms[k + 1],
                ops[k]->Reserve_id,
                ops[k]->Reserve_count,
                ops[k]->Reserve_start,
            ) by {
            if k < n {
                assert(ops0[k] == ops[k] && ms0[k + 1] == ms[k + 1]);
            } else {
                assert(nonce_op_rel(ms[k], ops[k], ms[k + 1]));
                let id = ops[k]->Reserve_id;
                let count = ops[k]->Reserve_count;
                let start = ops[k]->Reserve_start;
                let f = max_u64(ms[k].floor, ops[k]->Reserve_canonical);
                let live1 = trim_live(ms[k].live, f);
                let m = ms[k + 1];
                assert(m.live[id] == ReservedRange { start, end: sat_add(start, count as u64) });
                assert forall|o: Seq<char>|
                    #[trigger] m.live.dom().contains(o) && o != id implies ranges_disjoint(
                        m.live[o],
                        ReservedRange { start, end: sat_add(start, count as u64) },
                    ) by {
                    assert(ranges_disjoint(m.live[o], m.live[id]));
                }
                if count > 1 {
                    assert forall|o: Seq<char>|
                        #[trigger] m.live.dom().contains(o) && o != id implies m.live[o].end <= start by {
                        assert(live1.dom().contains(o));
                        assert(m.live[o] == live1[o]);
                    }
                }
            }
        }
        assert forall|j: int| 0 <= j < ms.len() implies nonce_state_sound(#[trigger] ms[j]) by {
            if j < ms.len() - 1 {
                assert(ms0[j] == ms[j]);
            }
        }
    } else {
        assert forall|j: int| 0 <= j < ms.len() implies nonce_state_sound(#[trigger] ms[j]) by {
            assert(ms[0].live.dom() =~= Set::<Seq<char>>::empty());
        }
    }
}

spec fn ids_distinct(s: Seq<LiveReservation>) -> bool {
    forall|i: int, j: int|
        #![trigger s[i].instance_id@, s[j].instance_id@]
        0 <= i < s.len() && 0 <= j < s.len() && i != j ==> s[i].instance_id@ != s[j].instance_id@
}

spec fn sorted_strict(s: Seq<u64>) -> bool {
    forall|i: int, j: int| #![trigger s[i], s[j]] 0 <= i < j < s.len() ==> s[i] < s[j]
}

spec fn live_disjoint(s: Seq<LiveReservation>) -> bool {
    forall|i: int, j: int|
        #![trigger s[i].range, s[j].range]
        0 <= i < s.len() && 0 <= j < s.len() && i != j ==> ranges_disjoint(s[i].range, s[j].range)
}

spec fn recycled_free(live: Seq<LiveReservation>, rec: Seq<u64>) -> bool {
    forall|i: int, j: int|
        #![trigger live[i].range, rec[j]]
        0 <= i < live.len() && 0 <= j < rec.len() ==> !range_contains(live[i].range, rec[j])
}

spec fn has_id(s: Seq<LiveReservation>, k: Seq<char>) -> bool {
    exists|i: int| 0 <= i < s.len() && #[trigger] s[i].instance_id@ == k
}

spec fn live_map(s: Seq<LiveReservation>) -> Map<Seq<char>, ReservedRange> {
    Map::new(
        |k: Seq<char>| has_id(s, k),
        |k: Seq<char>| s[choose|i: int| 0 <= i < s.len() && #[trigger] s[i].instance_id@ == k].range,
    )
}

proof fn lemma_live_map_at(s: Seq<LiveReservation>, i: int)
    requires
        ids_distinct(s),
        0 <= i < s.len(),
    ensures
        live_map(s).dom().contains(s[i].instance_id@),
        live_map(s)[s[i].instance_id@] == s[i].range,
{
    let k = s[i].instance_id@;
    assert(has_id(s, k));
    let j = choose|j: int| 0 <= j < s.len() && #[trigger] s[j].instance_id@ == k;
    assert(s[j].instance_id@ == s[i].instance_id@);
}

proof fn lemma_live_map_index(s: Seq<LiveReservation>, k: Seq<char>) -> (i: int)
    requires
        ids_distinct(s),
        live_map(s).dom().contains(k),
    ensures
        0 <= i < s.len(),
        s[i].instance_id@ == k,
        live_map(s)[k] == s[i].range,
{
    let i = choose|i: int| 0 <= i < s.len() && #[trigger] s[i].instance_id@ == k;
    lemma_live_map_at(s, i);
    i
}

fn clone_reservation(r: &LiveReservation) -> (out: LiveReservation)
    ensures
        out.instance_id@ == r.instance_id@,
        out.range == r.range,
{
    LiveReservation { instance_id: r.instance_id.clone(), range: r.range }
}

/// Keep the reservations with `end > floor` (when `use_floor`) whose id differs
/// from `drop` (when `use_drop`).
spec fn keeps(r: LiveReservation, use_floor: bool, floor: u64, use_drop: bool, drop: Seq<char>) -> bool {
    (!use_floor || r.range.end > floor) && (!use_drop || r.instance_id@ != drop)
}

fn retain_live(
    live: &Vec<LiveReservation>,
    use_floor: bool,
    floor: u64,
    use_drop: bool,
    drop: &str,
) -> (out: Vec<LiveReservation>)
    requires
        ids_distinct(live@),
    ensures
        ids_distinct(out@),
        live_map(out@) =~= Map::new(
            |k: Seq<char>|
                live_map(live@).dom().contains(k) && (!use_floor || live_map(live@)[k].end > floor)
                    && (!use_drop || k != drop@),
            |k: Seq<char>| live_map(live@)[k],
        ),
{
    let mut out: Vec<LiveReservation> = Vec::new();
    let ghost mut idx: Seq<int> = Seq::empty();
    let mut i: usize = 0;
    while i < live.len()
        invariant
            ids_distinct(live@),
            0 <= i <= live@.len(),
            idx.len() == out@.len(),
            forall|j: int| 0 <= j < idx.len() ==> 0 <= #[trigger] idx[j] < i,
            forall|a: int, b: int| #![trigger idx[a], idx[b]] 0 <= a < b < idx.len() ==> idx[a] < idx[b],
            forall|j: int|
                #![trigger out@[j]]
                0 <= j < idx.len() ==> out@[j].range == live@[idx[j]].range
                    && out@[j].instance_id@ == live@[idx[j]].instance_id@ && keeps(live@[idx[j]], use_floor, floor, use_drop, drop@),
            forall|k: int|
                #![trigger live@[k]]
                0 <= k < i && keeps(live@[k], use_floor, floor, use_drop, drop@) ==> exists|j: int|
                    0 <= j < idx.len() && #[trigger] idx[j] == k,
        decreases live@.len() - i,
    {
        let same = str_eq(live[i].instance_id.as_str(), drop);
        if (!use_floor || live[i].range.end > floor) && (!use_drop || !same) {
            let r = clone_reservation(&live[i]);
            out.push(r);
            proof {
                let old_idx = idx;
                idx = idx.push(i as int);
                assert forall|k: int|
                    #![trigger live@[k]]
                    0 <= k < i + 1 && keeps(live@[k], use_floor, floor, use_drop, drop@) implies exists|j: int|
                    0 <= j < idx.len() && #[trigger] idx[j] == k by {
                    if k == i {
                        assert(idx[idx.len() - 1] == k);
                    } else {
                        let j = choose|j: int| 0 <= j < old_idx.len() && #[trigger] old_idx[j] == k;
                        assert(idx[j] == k);
                    }
                }
            }
        } else {
            proof {
                assert forall|k: int|
                    #![trigger live@[k]]
                    0 <= k < i + 1 && keeps(live@[k], use_floor, floor, use_drop, drop@) implies exists|j: int|
                    0 <= j < idx.len() && #[trigger] idx[j] == k by {
                    if k == i {
                        assert(!keeps(live@[k], use_floor, floor, use_drop, drop@));
                    }
                }
            }
        }
        i = i + 1;
    }
    proof {
        assert forall|a: int, b: int|
            #![trigger out@[a].instance_id@, out@[b].instance_id@]
            0 <= a < out@.len() && 0 <= b < out@.len() && a != b implies out@[a].instance_id@
            != out@[b].instance_id@ by {
            if a < b {
                assert(idx[a] < idx[b]);
            } else {
                assert(idx[b] < idx[a]);
            }
            assert(live@[idx[a]].instance_id@ != live@[idx[b]].instance_id@);
        }
        let target = Map::new(
            |k: Seq<char>|
                live_map(live@).dom().contains(k) && (!use_floor || live_map(live@)[k].end > floor)
                    && (!use_drop || k != drop@),
            |k: Seq<char>| live_map(live@)[k],
        );
        assert forall|k: Seq<char>| #[trigger] live_map(out@).dom().contains(k) implies target.dom().contains(
            k,
        ) && live_map(out@)[k] == target[k] by {
            let j = lemma_live_map_index(out@, k);
            let w = idx[j];
            lemma_live_map_at(live@, w);
        }
        assert forall|k: Seq<char>| #[trigger] target.dom().contains(k) implies live_map(
            out@,
        ).dom().contains(k) by {
            let w = lemma_live_map_index(live@, k);
            assert(keeps(live@[w], use_floor, floor, use_drop, drop@));
            let j = choose|j: int| 0 <= j < idx.len() && #[trigger] idx[j] == w;
            assert(out@[j].instance_id@ == k);
            lemma_live_map_at(out@, j);
        }
        assert(live_map(out@) =~= target);
    }
    out
}

/// Keep the sorted recycled nonces that are `>= floor` and outside `[skip_start, skip_end)`.
fn retain_recycled(rec: &Vec<u64>, floor: u64, skip_start: u64, skip_end: u64) -> (out: Vec<u64>)
    requires
        sorted_strict(rec@),
    ensures
        sorted_strict(out@),
        forall|j: int| 0 <= j < out@.len() ==> rec@.contains(#[trigger] out@[j]),
        out@.to_set() =~= rec@.to_set().filter(
            |n: u64| n >= floor && !(skip_start <= n && n < skip_end),
        ),
{
    let mut out: Vec<u64> = Vec::new();
    let mut i: usize = 0;
    while i < rec.len()
        invariant
            sorted_strict(rec@),
            0 <= i <= rec@.len(),
            sorted_strict(out@),
            forall|j: int| 0 <= j < out@.len() ==> rec@.contains(#[trigger] out@[j]),
            forall|j: int| 0 <= j < out@.len() ==> #[trigger] out@[j] >= floor && !(skip_start <= out@[j] && out@[j] < skip_end),
            out@.len() <= i,
            out@.len() > 0 ==> out@[out@.len() - 1] <= rec@[i - 1],
            forall|j: int| 0 <= j < out@.len() ==> exists|k: int| 0 <= k < i && rec@[k] == #[trigger] out@[j],
            forall|k: int|
                0 <= k < i && #[trigger] rec@[k] >= floor && !(skip_start <= rec@[k] && rec@[k] < skip_end)
                    ==> out@.contains(rec@[k]),
        decreases rec@.len() - i,
    {
        let n = rec[i];
        if n >= floor && !(skip_start <= n && n < skip_end) {
            proof {
                if out@.len() > 0 {
                    assert(rec@[i - 1] < rec@[i as int]);
                }
            }
            let ghost prev = out@;
            out.push(n);
            proof {
                assert(out@[out@.len() - 1] == n);
                assert forall|k: int|
                    0 <= k < i + 1 && #[trigger] rec@[k] >= floor && !(skip_start <= rec@[k] && rec@[k]
                        < skip_end) implies out@.contains(rec@[k]) by {
                    if k < i {
                        assert(prev.contains(rec@[k]));
                        let j = choose|j: int| 0 <= j < prev.len() && prev[j] == rec@[k];
                        assert(out@[j] == prev[j]);
                    } else {
                        assert(out@[out@.len() - 1] == rec@[k]);
                    }
                }
                assert forall|j: int| 0 <= j < out@.len() implies exists|k: int|
                    0 <= k < i + 1 && rec@[k] == #[trigger] out@[j] by {
                    if j == out@.len() - 1 {
                        assert(rec@[i as int] == out@[j]);
                    } else {
                        let k = choose|k: int| 0 <= k < i && rec@[k] == out@[j];
                        assert(rec@[k] == out@[j]);
                    }
                }
            }
        } else {
            proof {
                if out@.len() > 0 {
                    assert(rec@[i - 1] < rec@[i as int]);
                }
            }
        }
        i = i + 1;
    }
    proof {
        let pred = |n: u64| n >= floor && !(skip_start <= n && n < skip_end);
        assert forall|n: u64| #[trigger] out@.to_set().contains(n) implies rec@.to_set().filter(pred).contains(n) by {
            let j = choose|j: int| 0 <= j < out@.len() && out@[j] == n;
            assert(rec@.contains(out@[j]));
        }
        assert forall|n: u64| #[trigger] rec@.to_set().filter(pred).contains(n) implies out@.to_set().contains(n) by {
            let k = choose|k: int| 0 <= k < rec@.len() && rec@[k] == n;
            assert(rec@[k] >= floor);
        }
    }
    out
}

/// Insert `n` into a strictly sorted vector, keeping it strictly sorted.
fn insert_sorted(v: &mut Vec<u64>, n: u64)
    requires
        sorted_strict(old(v)@),
    ensures
        sorted_strict(final(v)@),
        final(v)@.to_set() =~= old(v)@.to_set().insert(n),
{
    let mut p: usize = 0;
    while p < v.len() && v[p] < n
        invariant
            0 <= p <= v@.len(),
            forall|j: int| 0 <= j < p ==> #[trigger] v@[j] < n,
        decreases v@.len() - p,
    {
        p = p + 1;
    }
    if p < v.len() && v[p] == n {
        proof {
            assert(old(v)@.contains(n));
        }
        return;
    }
    let ghost before = v@;
    v.insert(p, n);
    proof {
        assert forall|i: int, j: int| #![trigger v@[i], v@[j]] 0 <= i < j < v@.len() implies v@[i] < v@[j] by {
            if j < p {
                assert(before[i] < before[j]);
            } else if j == p {
                assert(before[i] < n);
            } else if i == p {
                assert(before[j - 1] >= n);
                if j - 1 > p {
                    assert(before[p as int] < before[j - 1]);
                }
                assert(before[p as int] != n);
            } else if i < p {
                assert(before[i] < n);
                assert(before[j - 1] >= n);
            } else {
                assert(before[i - 1] < before[j - 1]);
            }
        }
        assert forall|x: u64| #[trigger] v@.to_set().contains(x) implies before.to_set().insert(n).contains(x) by {
            let j = choose|j: int| 0 <= j < v@.len() && v@[j] == x;
            if j < p {
                assert(before[j] == x);
            } else if j > p {
                assert(before[j - 1] == x);
            }
        }
        assert forall|x: u64| #[trigger] before.to_set().insert(n).contains(x) implies v@.to_set().contains(x) by {
            if x == n {
                assert(v@[p as int] == n);
            } else {
                let j = choose|j: int| 0 <= j < before.len() && before[j] == x;
                if j < p {
                    assert(v@[j] == x);
                } else {
                    assert(v@[j + 1] == x);
                }
            }
        }
    }
}

impl View for DeferredNonceManager {
    type V = NonceView;

    closed spec fn view(&self) -> NonceView {
        NonceView {
            floor: self.canonical_floor,
            initialized: self.initialized,
            live: live_map(self.live@),
            recycled: self.recycled@.to_set(),
        }
    }
}

impl DeferredNonceManager {
    #[verifier::type_invariant]
    closed spec fn wf(self) -> bool {
        &&& ids_distinct(self.live@)
        &&& sorted_strict(self.recycled@)
        &&& live_disjoint(self.live@)
        &&& recycled_free(self.live@, self.recycled@)
    }

    /// Creates an empty manager: floor 0, no reservations, nothing recycled.
    pub fn new() -> (m: Self)
        ensures
            m@.floor == 0,
            !m@.initialized,
            m@.live =~= Map::<Seq<char>, ReservedRange>::empty(),
            m@.recycled =~= Set::<u64>::empty(),
    {
        let m = DeferredNonceManager {
            canonical_floor: 0,
            initialized: false,
            live: Vec::new(),
            recycled: Vec::new(),
        };
        proof {
            assert(m.recycled@.to_set() =~= Set::<u64>::empty());
            assert(live_map(m.live@) =~= Map::<Seq<char>, ReservedRange>::empty());
        }
        m
    }

    /// Reserves a contiguous run of `count` nonces for `instance_id` and returns
    /// the starting nonce.
    ///
    /// `canonical` is the signer's canonical chain nonce read by the caller. It
    /// raises the floor (never lowers it); recycled and live entries the chain
    /// has moved past are trimmed. A single nonce is taken from the recycled
    /// pool when one is available; otherwise the run starts after every live
    /// reservation and at or above the floor.
    pub fn reserve(&mut self, instance_id: &str, count: usize, canonical: u64) -> (start: u64)
        requires
            count > 0,
        ensures
            ({
                let f = max_u64(old(self)@.floor, canonical);
                let live1 = trim_live(old(self)@.live, f);
                let rec1 = trim_recycled(old(self)@.recycled, f);
                let end = sat_add(start, count as u64);
                &&& final(self)@.floor == f
                &&& final(self)@.initialized
                &&& (count == 1 && !rec1.is_empty()) ==> is_least(rec1, start)
                &&& !(count == 1 && !rec1.is_empty()) ==> is_live_end(live1, f, start)
                &&& final(self)@.live == live1.insert(
                    instance_id@,
                    ReservedRange { start, end },
                )
                &&& final(self)@.recycled == rec1.filter(|n: u64| !(start <= n && n < end))
            }),
            start >= canonical,
            start >= old(self)@.floor,
            nonce_state_sound(final(self)@),
    {
        proof {
            use_type_invariant(&*self);
            lemma_sound(&*self);
        }
        let ghost old_view = self@;
        let f = if self.canonical_floor >= canonical {
            self.canonical_floor
        } else {
            canonical
        };
        // Live reservations the chain has not moved past.
        let live_t = retain_live(&self.live, true, f, false, instance_id);
        // Smallest recycled nonce at or above the floor.
        let mut p: usize = 0;
        while p < self.recycled.len() && self.recycled[p] < f
            invariant
                0 <= p <= self.recycled@.len(),
                forall|j: int| 0 <= j < p ==> #[trigger] self.recycled@[j] < f,
            decreases self.recycled@.len() - p,
        {
            p = p + 1;
        }
        let has_recycled = p < self.recycled.len();
        let start = if count == 1 && has_recycled {
            self.recycled[p]
        } else {
            live_end_of(&live_t, f)
        };
        let c = count as u64;
        let end = if start > u64::MAX - c {
            u64::MAX
        } else {
            start + c
        };
        let rec2 = retain_recycled(&self.recycled, f, start, end);
        let range = ReservedRange { start, end };
        let live1 = retain_live(&live_t, false, 0, true, instance_id);
        let mut live2 = live1;
        let ghost live1_seq = live2@;
        live2.push(LiveReservation { instance_id: instance_id.to_owned(), range });
        proof {
            let rec1 = trim_recycled(old_view.recycled, f);
            let live1m = trim_live(old_view.live, f);
            assert(live_map(live_t@) =~= live1m);
            assert(live_map(live1_seq) =~= live1m.remove(instance_id@));
            if has_recycled {
                assert(rec1.contains(self.recycled@[p as int]));
                assert forall|n: u64| #[trigger] rec1.contains(n) implies self.recycled@[p as int] <= n by {
                    let j = choose|j: int| 0 <= j < self.recycled@.len() && self.recycled@[j] == n;
                    if j < p {
                        assert(self.recycled@[j] < f);
                    } else if j > p {
                        assert(self.recycled@[p as int] < self.recycled@[j]);
                    }
                }
            } else {
                assert forall|n: u64| !rec1.contains(n) by {
                    if self.recycled@.contains(n) && n >= f {
                        let j = choose|j: int| 0 <= j < self.recycled@.len() && self.recycled@[j] == n;
                        assert(self.recycled@[j] < f);
                    }
                }
                assert(rec1 =~= Set::<u64>::empty());
            }
            // Every kept reservation is the old reservation under the same id.
            assert forall|a: int| 0 <= a < live1_seq.len() implies ({
                let k = #[trigger] live1_seq[a].instance_id@;
                &&& old_view.live.dom().contains(k)
                &&& old_view.live[k] == live1_seq[a].range
                &&& old_view.live[k].end > f
                &&& k != instance_id@
            }) by {
                lemma_live_map_at(live1_seq, a);
            }
            // The new range shares no nonce with any kept reservation.
            assert forall|a: int| 0 <= a < live1_seq.len() implies ranges_disjoint(
                #[trigger] live1_seq[a].range,
                range,
            ) by {
                let k = live1_seq[a].instance_id@;
                if count == 1 && has_recycled {
                    assert(old_view.recycled.contains(self.recycled@[p as int]));
                    assert(!range_contains(old_view.live[k], self.recycled@[p as int]));
                } else {
                    assert(live1m.dom().contains(k));
                }
            }
            assert forall|a: int, b: int|
                #![trigger live2@[a].instance_id@, live2@[b].instance_id@]
                0 <= a < live2@.len() && 0 <= b < live2@.len() && a != b implies live2@[a].instance_id@
                != live2@[b].instance_id@ by {
                if a < live2@.len() - 1 && b < live2@.len() - 1 {
                    assert(live1_seq[a] == live2@[a]);
                    assert(live1_seq[b] == live2@[b]);
                } else if a < live2@.len() - 1 {
                    assert(live1_seq[a] == live2@[a]);
                } else if b < live2@.len() - 1 {
                    assert(live1_seq[b] == live2@[b]);
                }
            }
            assert(live_disjoint(live2@)) by {
                assert forall|a: int, b: int|
                    #![trigger live2@[a].range, live2@[b].range]
                    0 <= a < live2@.len() && 0 <= b < live2@.len() && a != b implies ranges_disjoint(
                    live2@[a].range,
                    live2@[b].range,
                ) by {
                    if a == live2@.len() - 1 {
                        assert(live1_seq[b] == live2@[b]);
                    } else if b == live2@.len() - 1 {
                        assert(live1_seq[a] == live2@[a]);
                    } else {
                        assert(live1_seq[a] == live2@[a]);
                        assert(live1_seq[b] == live2@[b]);
                        let ka = live1_seq[a].instance_id@;
                        let kb = live1_seq[b].instance_id@;
                        assert(ka != kb);
                        assert(ranges_disjoint(old_view.live[ka], old_view.live[kb]));
                    }
                }
            }
            assert(recycled_free(live2@, rec2@)) by {
                assert forall|a: int, j: int|
                    #![trigger live2@[a].range, rec2@[j]]
                    0 <= a < live2@.len() && 0 <= j < rec2@.len() implies !range_contains(
                    live2@[a].range,
                    rec2@[j],
                ) by {
                    assert(rec2@.to_set().contains(rec2@[j]));
                    if a < live2@.len() - 1 {
                        assert(live1_seq[a] == live2@[a]);
                        let ka = live1_seq[a].instance_id@;
                        assert(old_view.recycled.contains(rec2@[j]));
                        assert(!range_contains(old_view.live[ka], rec2@[j]));
                    }
                }
            }
            assert(live_map(live2@) =~= live1m.insert(instance_id@, range)) by {
                assert forall|k: Seq<char>| #[trigger] live_map(live2@).dom().contains(k) implies live1m.insert(
                    instance_id@,
                    range,
                ).dom().contains(k) && live_map(live2@)[k] == live1m.insert(instance_id@, range)[k] by {
                    let j = lemma_live_map_index(live2@, k);
                    if j < live2@.len() - 1 {
                        assert(live1_seq[j] == live2@[j]);
                    }
                }
                assert forall|k: Seq<char>| #[trigger] live1m.insert(instance_id@, range).dom().contains(
                    k,
                ) implies live_map(live2@).dom().contains(k) by {
                    if k == instance_id@ {
                        lemma_live_map_at(live2@, live2@.len() - 1);
                    } else {
                        assert(live_map(live1_seq).dom().contains(k));
                        let j = lemma_live_map_index(live1_seq, k);
                        assert(live1_seq[j] == live2@[j]);
                        lemma_live_map_at(live2@, j);
                    }
                }
            }
            assert(rec2@.to_set() =~= rec1.filter(|n: u64| !(start <= n && n < end)));
        }
        *self = DeferredNonceManager {
            canonical_floor: f,
            initialized: true,
            live: live2,
            recycled: rec2,
        };
        proof {
            lemma_sound(self);
        }
        start
    }

    /// Marks an XT's reservation as canonically included. Its nonces are not
    /// returned to the recycled pool (the chain has consumed them) and the floor
    /// is raised to the reservation's end.
    pub fn release_confirmed(&mut self, instance_id: &str)
        ensures
            old(self)@.live.dom().contains(instance_id@) ==> final(self)@.floor == max_u64(
                old(self)@.floor,
                old(self)@.live[instance_id@].end,
            ),
            !old(self)@.live.dom().contains(instance_id@) ==> final(self)@.floor == old(self)@.floor,
            final(self)@.live == old(self)@.live.remove(instance_id@),
            final(self)@.recycled == old(self)@.recycled,
            final(self)@.initialized == old(self)@.initialized,
            final(self)@.floor >= old(self)@.floor,
            nonce_state_sound(final(self)@),
    {
        proof {
            use_type_invariant(&*self);
            lemma_sound(&*self);
        }
        let ghost old_view = self@;
        let found = find_live(&self.live, instance_id);
        let mut floor = self.canonical_floor;
        if let Some(i) = found {
            let end = self.live[i].range.end;
            if end > floor {
                floor = end;
            }
            proof {
                lemma_live_map_at(self.live@, i as int);
            }
        } else {
            proof {
                lemma_absent(self.live@, instance_id@);
            }
        }
        let live2 = retain_live(&self.live, false, 0, true, instance_id);
        let rec = clone_u64s(&self.recycled);
        proof {
            lemma_removed_sound(old_view, live2@, rec@, instance_id@);
        }
        *self = DeferredNonceManager {
            canonical_floor: floor,
            initialized: self.initialized,
            live: live2,
            recycled: rec,
        };
        proof {
            lemma_sound(self);
        }
    }

    /// Returns an XT's reservation to the recycled pool so the next XT can claim
    /// those nonces. Only nonces at or above the floor are recycled.
    pub fn release_aborted(&mut self, instance_id: &str)
        ensures
            final(self)@.floor == old(self)@.floor,
            final(self)@.initialized == old(self)@.initialized,
            final(self)@.live == old(self)@.live.remove(instance_id@),
            old(self)@.live.dom().contains(instance_id@) ==> final(self)@.recycled == old(
                self,
            )@.recycled.union(
                Set::new(
                    |n: u64|
                        range_contains(old(self)@.live[instance_id@], n) && n >= old(self)@.floor,
                ),
            ),
            !old(self)@.live.dom().contains(instance_id@) ==> final(self)@.recycled == old(
                self,
            )@.recycled,
            nonce_state_sound(final(self)@),
    {
        proof {
            use_type_invariant(&*self);
            lemma_sound(&*self);
        }
        let ghost old_view = self@;
        let found = find_live(&self.live, instance_id);
        let Some(i) = found else {
            proof {
                lemma_absent(self.live@, instance_id@);
                assert(old_view.live.remove(instance_id@) =~= old_view.live);
            }
            return;
        };
        proof {
            lemma_live_map_at(self.live@, i as int);
        }
        let range = self.live[i].range;
        let floor = self.canonical_floor;
        let live2 = retain_live(&self.live, false, 0, true, instance_id);
        let mut rec = clone_u64s(&self.recycled);
        let lo = if range.start >= floor {
            range.start
        } else {
            floor
        };
        let mut n = lo;
        let ghost base = self.recycled@.to_set();
        while n < range.end
            invariant
                lo <= n,
                n <= range.end || n == lo,
                sorted_strict(rec@),
                rec@.to_set() =~= base.union(Set::new(|x: u64| lo <= x && x < n)),
            decreases range.end - n,
        {
            insert_sorted(&mut rec, n);
            n = n + 1;
            proof {
                assert(rec@.to_set() =~= base.union(Set::new(|x: u64| lo <= x && x < n)));
            }
        }
        proof {
            let added = Set::new(|x: u64| range_contains(range, x) && x >= floor);
            assert(rec@.to_set() =~= base.union(added));
            assert(live_map(live2@) =~= old_view.live.remove(instance_id@));
            lemma_removed_sound(old_view, live2@, self.recycled@, instance_id@);
            assert(recycled_free(live2@, rec@)) by {
                assert forall|a: int, j: int|
                    #![trigger live2@[a].range, rec@[j]]
                    0 <= a < live2@.len() && 0 <= j < rec@.len() implies !range_contains(
                    live2@[a].range,
                    rec@[j],
                ) by {
                    lemma_live_map_at(live2@, a);
                    let ka = live2@[a].instance_id@;
                    assert(rec@.to_set().contains(rec@[j]));
                    if !base.contains(rec@[j]) {
                        assert(ka != instance_id@);
                        assert(ranges_disjoint(old_view.live[ka], old_view.live[instance_id@]));
                    } else {
                        assert(old_view.recycled.contains(rec@[j]));
                    }
                }
            }
        }
        *self = DeferredNonceManager {
            canonical_floor: floor,
            initialized: self.initialized,
            live: live2,
            recycled: rec,
        };
        proof {
            lemma_sound(self);
        }
    }

    /// Wipes every reservation and the floor. Used only when the chain state has
    /// moved backwards (rollback); the next `reserve` re-anchors on the canonical nonce.
    pub fn reset(&mut self)
        ensures
            final(self)@.floor == 0,
            !final(self)@.initialized,
            final(self)@.live =~= Map::<Seq<char>, ReservedRange>::empty(),
            final(self)@.recycled =~= Set::<u64>::empty(),
    {
        *self = Self::new();
    }

    /// The current floor (highest canonical nonce or confirmed end seen).
    pub fn canonical_floor(&self) -> (f: u64)
        ensures
            f == self@.floor,
    {
        self.canonical_floor
    }
}

proof fn lemma_absent(s: Seq<LiveReservation>, k: Seq<char>)
    requires
        !has_id(s, k),
    ensures
        !live_map(s).dom().contains(k),
{
}

/// After removing one id, the remaining reservations are still pairwise disjoint
/// and free of the (unchanged) recycled nonces.
proof fn lemma_removed_sound(
    old_view: NonceView,
    live2: Seq<LiveReservation>,
    rec: Seq<u64>,
    id: Seq<char>,
)
    requires
        nonce_state_sound(old_view),
        ids_distinct(live2),
        live_map(live2) =~= old_view.live.remove(id),
        old_view.recycled == rec.to_set(),
    ensures
        live_disjoint(live2),
        recycled_free(live2, rec),
{
    assert forall|a: int, b: int|
        #![trigger live2[a].range, live2[b].range]
        0 <= a < live2.len() && 0 <= b < live2.len() && a != b implies ranges_disjoint(
        live2[a].range,
        live2[b].range,
    ) by {
        lemma_live_map_at(live2, a);
        lemma_live_map_at(live2, b);
        let ka = live2[a].instance_id@;
        let kb = live2[b].instance_id@;
        assert(old_view.live[ka] == live2[a].range);
        assert(old_view.live[kb] == live2[b].range);
    }
    assert forall|a: int, j: int|
        #![trigger live2[a].range, rec[j]]
        0 <= a < live2.len() && 0 <= j < rec.len() implies !range_contains(live2[a].range, rec[j]) by {
        lemma_live_map_at(live2, a);
        let ka = live2[a].instance_id@;
        assert(old_view.live[ka] == live2[a].range);
        assert(old_view.recycled.contains(rec[j]));
    }
}

proof fn lemma_sound(m: &DeferredNonceManager)
    requires
        m.wf(),
    ensures
        nonce_state_sound(m@),
{
    let v = m@;
    assert forall|k1: Seq<char>, k2: Seq<char>|
        #![trigger v.live[k1], v.live[k2]]
        v.live.dom().contains(k1) && v.live.dom().contains(k2) && k1 != k2 implies ranges_disjoint(
        v.live[k1],
        v.live[k2],
    ) by {
        let i = lemma_live_map_index(m.live@, k1);
        let j = lemma_live_map_index(m.live@, k2);
        assert(m.live@[i].range == v.live[k1]);
        assert(m.live@[j].range == v.live[k2]);
    }
    assert forall|k: Seq<char>, n: u64|
        #![trigger v.live[k], v.recycled.contains(n)]
        v.live.dom().contains(k) && v.recycled.contains(n) implies !range_contains(v.live[k], n) by {
        let i = lemma_live_map_index(m.live@, k);
        let j = choose|j: int| 0 <= j < m.recycled@.len() && m.recycled@[j] == n;
        assert(m.live@[i].range == v.live[k]);
        assert(!range_contains(m.live@[i].range, m.recycled@[j]));
    }
}

fn clone_u64s(v: &Vec<u64>) -> (out: Vec<u64>)
    ensures
        out@ == v@,
{
    let mut out: Vec<u64> = Vec::new();
    let mut i: usize = 0;
    while i < v.len()
        invariant
            0 <= i <= v@.len(),
            out@ == v@.subrange(0, i as int),
        decreases v@.len() - i,
    {
        out.push(v[i]);
        i = i + 1;
        assert(out@ =~= v@.subrange(0, i as int));
    }
    assert(v@.subrange(0, v@.len() as int) =~= v@);
    out
}

fn find_live(live: &Vec<LiveReservation>, instance_id: &str) -> (r: Option<usize>)
    ensures
        r matches Some(i) ==> i < live@.len() && live@[i as int].instance_id@ == instance_id@,
        r is None ==> !has_id(live@, instance_id@),
{
    let mut i: usize = 0;
    while i < live.len()
        invariant
            0 <= i <= live@.len(),
            forall|j: int| 0 <= j < i ==> #[trigger] live@[j].instance_id@ != instance_id@,
        decreases live@.len() - i,
    {
        if str_eq(live[i].instance_id.as_str(), instance_id) {
            return Some(i);
        }
        i = i + 1;
    }
    None
}

/// The larger of `f` and every live range end in `live`.
fn live_end_of(live: &Vec<LiveReservation>, f: u64) -> (e: u64)
    requires
        ids_distinct(live@),
    ensures
        is_live_end(live_map(live@), f, e),
{
    let mut e = f;
    let mut i: usize = 0;
    while i < live.len()
        invariant
            ids_distinct(live@),
            0 <= i <= live@.len(),
            e >= f,
            forall|j: int| 0 <= j < i ==> #[trigger] live@[j].range.end <= e,
            e == f || exists|j: int| 0 <= j < i && #[trigger] live@[j].range.end == e,
        decreases live@.len() - i,
    {
        if live[i].range.end > e {
            e = live[i].range.end;
        }
        i = i + 1;
    }
    proof {
        let m = live_map(live@);
        assert forall|k: Seq<char>| #[trigger] m.dom().contains(k) implies m[k].end <= e by {
            let j = lemma_live_map_index(live@, k);
        }
        if e != f {
            let j = choose|j: int| 0 <= j < live@.len() && #[trigger] live@[j].range.end == e;
            lemma_live_map_at(live@, j);
            assert(m.dom().contains(live@[j].instance_id@));
        }
    }
    e
}

/// The next fresh nonce: the larger of the floor and every live range end.
pub fn live_end(manager: &DeferredNonceManager) -> (e: u64)
    ensures
        is_live_end(manager@.live, manager@.floor, e),
{
    proof {
        use_type_invariant(manager);
    }
    live_end_of(&manager.live, manager.canonical_floor)
}

} // verus!
