//! The local simulation of an XT, as steps between which the caller runs the
//! simulator and waits for mailbox messages.
//!
//! The caller starts with [`DefaultCoordinator::begin_simulation`], runs each
//! transaction through the simulator, records each result with
//! [`DefaultCoordinator::record_simulation_state`], and follows
//! [`simulation_next`]: dispatch outbound messages and go on, wait for
//! dependencies (fulfilling them from the mailbox), or vote abort.

use vstd::prelude::*;

use crate::coordinator::{
    overlay_key, xt_key, ChainOverlay, CoordinatorState, DefaultCoordinator,
};
use crate::keyed::{
    keyed_map, keys_distinct, lemma_keyed_absent, lemma_keyed_at, lemma_keyed_push,
    lemma_keyed_update,
};
use crate::mailbox::{
    contains_message, dep_key_eq, matches_dependency, same_dep_key, same_route,
    spec_matches_dependency, spec_u256_to_u64, u256_to_u64,
};
use crate::overrides::{merge_overrides, merged_view, AccountView, StateOverride};
use crate::poll::{chain_state_map, overrides_view};
use crate::types::{
    clone_byte_vecs, Address, ChainId, CrossRollupDependency, CrossRollupMessage, MailboxMessage,
    U256,
};
use crate::util::bytes_eq;
use crate::xt::{bytes_view, chain_txs, txs_for, xt_wf, PendingXt};

verus! {

broadcast use vstd::seq::group_seq_axioms;

/// What a simulation of one transaction found.
#[derive(Debug)]
pub struct SimulationResult {
    pub success: bool,
    pub error: Option<String>,
    pub state_overrides: Option<StateOverride>,
    pub dependencies: Vec<CrossRollupDependency>,
    pub outbound_messages: Vec<CrossRollupMessage>,
}

/// What the caller does after recording a simulation result.
#[derive(Debug, Clone, Copy, PartialEq, Eq, Structural)]
pub enum SimulationNext {
    /// The transaction failed without a mailbox dependency: vote abort.
    VoteAbort,
    /// The transaction succeeded: dispatch its outbound messages and go on
    /// with the next transaction.
    Continue,
    /// The transaction waits for mailbox messages: wait for the dependencies,
    /// then simulate it again (vote abort on timeout).
    WaitForDependencies,
}

/// The step after a simulation result.
pub open spec fn spec_simulation_next(success: bool, dependency_count: nat) -> SimulationNext {
    if !success && dependency_count == 0 {
        SimulationNext::VoteAbort
    } else if success {
        SimulationNext::Continue
    } else {
        SimulationNext::WaitForDependencies
    }
}

/// The step after a simulation result.
pub fn simulation_next(result: &SimulationResult) -> (n: SimulationNext)
    ensures
        n == spec_simulation_next(result.success, result.dependencies@.len()),
{
    if !result.success && result.dependencies.len() == 0 {
        SimulationNext::VoteAbort
    } else if result.success {
        SimulationNext::Continue
    } else {
        SimulationNext::WaitForDependencies
    }
}

// ---------------------------------------------------------------------------
// The processing loop.
// ---------------------------------------------------------------------------

/// Where the local processing of an XT stands: the transaction being
/// simulated, out of `tx_count` local transactions.
#[derive(Debug, Clone, Copy, PartialEq, Eq, Structural)]
pub struct XtRun {
    pub tx_index: usize,
    pub tx_count: usize,
}

/// What happened since the last action of the processing loop.
#[derive(Debug, Clone, Copy, PartialEq, Eq, Structural)]
pub enum XtRunEvent {
    /// The simulator could not simulate the current transaction.
    SimulationError,
    /// The current transaction was simulated and its result recorded; the
    /// step that follows from the result (see [`simulation_next`]).
    Simulated(SimulationNext),
    /// The current transaction's outbound messages were dispatched (`true`)
    /// or dispatching failed (`false`).
    Dispatched(bool),
    /// The wait for mailbox dependencies ended: `true` when some dependency
    /// was fulfilled before the CIRC deadline.
    DependenciesWaited(bool),
}

/// What the processing loop does next.
#[derive(Debug, Clone, Copy, PartialEq, Eq, Structural)]
pub enum XtRunAction {
    /// Simulate local transaction `tx_index`.
    Simulate { tx_index: usize },
    /// Dispatch the outbound messages of the successful simulation.
    Dispatch,
    /// Wait for mailbox dependencies until the CIRC deadline.
    WaitForDependencies,
    /// Send the local vote; processing ends.
    Vote(bool),
}

/// The first action for an XT with `tx_count` local transactions: simulate
/// the first, or vote abort when there is none.
pub open spec fn spec_process_xt_start(tx_count: usize) -> (XtRun, XtRunAction) {
    let run = XtRun { tx_index: 0, tx_count };
    if tx_count == 0 {
        (run, XtRunAction::Vote(false))
    } else {
        (run, XtRunAction::Simulate { tx_index: 0 })
    }
}

/// One step of the processing loop: a simulator error, a failure without
/// dependencies, a failed dispatch or a dependency timeout vote abort; a
/// success dispatches the outbound messages and then moves to the next
/// transaction, voting commit after the last; fulfilled dependencies lead to
/// simulating the same transaction again.
pub open spec fn spec_process_xt_step(run: XtRun, event: XtRunEvent) -> (XtRun, XtRunAction) {
    match event {
        XtRunEvent::SimulationError => (run, XtRunAction::Vote(false)),
        XtRunEvent::Simulated(SimulationNext::VoteAbort) => (run, XtRunAction::Vote(false)),
        XtRunEvent::Simulated(SimulationNext::Continue) => (run, XtRunAction::Dispatch),
        XtRunEvent::Simulated(SimulationNext::WaitForDependencies) => (
            run,
            XtRunAction::WaitForDependencies,
        ),
        XtRunEvent::Dispatched(false) => (run, XtRunAction::Vote(false)),
        XtRunEvent::Dispatched(true) => {
            let next = XtRun { tx_index: (run.tx_index + 1) as usize, ..run };
            if run.tx_index + 1 >= run.tx_count {
                (next, XtRunAction::Vote(true))
            } else {
                (next, XtRunAction::Simulate { tx_index: next.tx_index })
            }
        },
        XtRunEvent::DependenciesWaited(false) => (run, XtRunAction::Vote(false)),
        XtRunEvent::DependenciesWaited(true) => (
            run,
            XtRunAction::Simulate { tx_index: run.tx_index },
        ),
    }
}

/// Starts the processing loop for an XT with `tx_count` local transactions.
pub fn process_xt_start(tx_count: usize) -> (r: (XtRun, XtRunAction))
    ensures
        r == spec_process_xt_start(tx_count),
{
    let run = XtRun { tx_index: 0, tx_count };
    if tx_count == 0 {
        (run, XtRunAction::Vote(false))
    } else {
        (run, XtRunAction::Simulate { tx_index: 0 })
    }
}

/// Advances the processing loop by one event.
pub fn process_xt_step(run: XtRun, event: XtRunEvent) -> (r: (XtRun, XtRunAction))
    requires
        run.tx_index < run.tx_count,
    ensures
        r == spec_process_xt_step(run, event),
        r.0.tx_count == run.tx_count,
        r.1 matches XtRunAction::Simulate { tx_index } ==> tx_index == r.0.tx_index
            && r.0.tx_index < r.0.tx_count,
{
    match event {
        XtRunEvent::SimulationError => (run, XtRunAction::Vote(false)),
        XtRunEvent::Simulated(SimulationNext::VoteAbort) => (run, XtRunAction::Vote(false)),
        XtRunEvent::Simulated(SimulationNext::Continue) => (run, XtRunAction::Dispatch),
        XtRunEvent::Simulated(SimulationNext::WaitForDependencies) => (
            run,
            XtRunAction::WaitForDependencies,
        ),
        XtRunEvent::Dispatched(false) => (run, XtRunAction::Vote(false)),
        XtRunEvent::Dispatched(true) => {
            let next = XtRun { tx_index: run.tx_index + 1, ..run };
            if run.tx_index + 1 >= run.tx_count {
                (next, XtRunAction::Vote(true))
            } else {
                (next, XtRunAction::Simulate { tx_index: next.tx_index })
            }
        },
        XtRunEvent::DependenciesWaited(false) => (run, XtRunAction::Vote(false)),
        XtRunEvent::DependenciesWaited(true) => (
            run,
            XtRunAction::Simulate { tx_index: run.tx_index },
        ),
    }
}

/// The loop for an XT with `tx_count` local transactions, started and then
/// fed `events` in order; events after a vote are ignored. The run and the
/// last action.
pub open spec fn run_events(tx_count: usize, events: Seq<XtRunEvent>) -> (XtRun, XtRunAction)
    decreases events.len(),
{
    if events.len() == 0 {
        spec_process_xt_start(tx_count)
    } else {
        let prev = run_events(tx_count, events.drop_last());
        if prev.1 is Vote {
            prev
        } else {
            spec_process_xt_step(prev.0, events.last())
        }
    }
}

/// The number of successful dispatches among `events`.
pub open spec fn dispatch_count(events: Seq<XtRunEvent>) -> nat
    decreases events.len(),
{
    if events.len() == 0 {
        0
    } else {
        dispatch_count(events.drop_last()) + if events.last() == XtRunEvent::Dispatched(true) {
            1nat
        } else {
            0nat
        }
    }
}

/// The loop votes commit only once every local transaction was simulated
/// and its outbound messages dispatched: the run then stands past the last
/// transaction, there was at least one, and at least that many successful
/// dispatches were reported. Until it votes, it stays on a transaction that
/// exists.
pub proof fn lemma_commit_after_every_transaction(tx_count: usize, events: Seq<XtRunEvent>)
    ensures
        ({
            let (run, act) = run_events(tx_count, events);
            &&& run.tx_count == tx_count
            &&& act == XtRunAction::Vote(true) ==> run.tx_index == tx_count && tx_count > 0
                && dispatch_count(events) >= tx_count
            &&& !(act is Vote) ==> run.tx_index < tx_count && run.tx_index <= dispatch_count(
                events,
            )
            &&& act == XtRunAction::Vote(false) ==> run.tx_index <= dispatch_count(events)
        }),
    decreases events.len(),
{
    if events.len() > 0 {
        lemma_commit_after_every_transaction(tx_count, events.drop_last());
    }
}

/// The outcome of one check while waiting for mailbox dependencies.
#[derive(Debug, Clone, Copy, PartialEq, Eq, Structural)]
pub enum DependencyWait {
    /// Some dependency was fulfilled: simulate again.
    Fulfilled,
    /// The CIRC deadline passed with nothing fulfilled.
    TimedOut,
    /// Sleep until a mailbox message arrives or the deadline passes, then check again.
    Sleep,
}

/// The CIRC deadline of a dependency wait that starts at `now` (saturating).
pub open spec fn spec_dependency_deadline(now: u64, circ_timeout_ms: u64) -> u64 {
    if now + circ_timeout_ms > u64::MAX {
        u64::MAX
    } else {
        (now + circ_timeout_ms) as u64
    }
}

/// The CIRC deadline of a dependency wait that starts at `now`.
pub fn dependency_deadline(now: u64, circ_timeout_ms: u64) -> (d: u64)
    ensures
        d == spec_dependency_deadline(now, circ_timeout_ms),
{
    now.saturating_add(circ_timeout_ms)
}

/// One check of a dependency wait: `fulfilled` dependencies were just taken
/// from the mailbox (see `fulfill_dependencies_from_mailbox`) at time `now`.
pub fn dependency_wait_check(fulfilled: usize, now: u64, deadline: u64) -> (w: DependencyWait)
    ensures
        fulfilled > 0 ==> w == DependencyWait::Fulfilled,
        fulfilled == 0 && now >= deadline ==> w == DependencyWait::TimedOut,
        fulfilled == 0 && now < deadline ==> w == DependencyWait::Sleep,
{
    if fulfilled > 0 {
        DependencyWait::Fulfilled
    } else if now >= deadline {
        DependencyWait::TimedOut
    } else {
        DependencyWait::Sleep
    }
}

// ---------------------------------------------------------------------------
// Value views.
// ---------------------------------------------------------------------------

/// A dependency viewed by contents.
pub open spec fn dep_view(d: CrossRollupDependency) -> (
    ChainId,
    ChainId,
    Address,
    Address,
    Seq<u8>,
    Option<Seq<u8>>,
    Option<U256>,
) {
    (
        d.source_chain_id,
        d.dest_chain_id,
        d.sender,
        d.receiver,
        d.label@,
        match d.data {
            Some(x) => Some(x@),
            None => None,
        },
        d.session_id,
    )
}

/// Dependencies viewed by contents.
pub open spec fn deps_view(s: Seq<CrossRollupDependency>) -> Seq<
    (ChainId, ChainId, Address, Address, Seq<u8>, Option<Seq<u8>>, Option<U256>),
> {
    s.map_values(|d: CrossRollupDependency| dep_view(d))
}

/// An outbound message viewed by contents.
pub open spec fn msg_view(m: CrossRollupMessage) -> (
    ChainId,
    ChainId,
    Address,
    Address,
    Seq<char>,
    Seq<u8>,
    Option<U256>,
) {
    (m.source_chain_id, m.dest_chain_id, m.sender, m.receiver, m.label@, m.data@, m.session_id)
}

/// Outbound messages viewed by contents.
pub open spec fn msgs_view(s: Seq<CrossRollupMessage>) -> Seq<
    (ChainId, ChainId, Address, Address, Seq<char>, Seq<u8>, Option<U256>),
> {
    s.map_values(|m: CrossRollupMessage| msg_view(m))
}

proof fn lemma_dep_same_view(a: CrossRollupDependency, b: CrossRollupDependency)
    requires
        a.same_as(&b),
    ensures
        dep_view(a) == dep_view(b),
{
}

/// `existing` extended by the dependencies of `found` whose key is new, in order.
pub open spec fn add_new_deps(
    existing: Seq<CrossRollupDependency>,
    found: Seq<CrossRollupDependency>,
) -> Seq<CrossRollupDependency>
    decreases found.len(),
{
    if found.len() == 0 {
        existing
    } else {
        let prev = add_new_deps(existing, found.drop_last());
        if exists|i: int| 0 <= i < prev.len() && same_dep_key(#[trigger] prev[i], found.last()) {
            prev
        } else {
            prev.push(found.last())
        }
    }
}

/// `existing` extended by the messages of `found` whose route is new, in order.
pub open spec fn add_new_msgs(
    existing: Seq<CrossRollupMessage>,
    found: Seq<CrossRollupMessage>,
) -> Seq<CrossRollupMessage>
    decreases found.len(),
{
    if found.len() == 0 {
        existing
    } else {
        let prev = add_new_msgs(existing, found.drop_last());
        if exists|i: int| 0 <= i < prev.len() && same_route(#[trigger] prev[i], found.last()) {
            prev
        } else {
            prev.push(found.last())
        }
    }
}

/// Adds to `existing` the dependencies of `found` whose key is new.
pub fn extend_new_deps(existing: &mut Vec<CrossRollupDependency>, found: &Vec<CrossRollupDependency>)
    ensures
        deps_view(final(existing)@) == deps_view(add_new_deps(old(existing)@, found@)),
{
    let ghost e0 = existing@;
    let mut k: usize = 0;
    while k < found.len()
        invariant
            0 <= k <= found@.len(),
            e0 == old(existing)@,
            deps_view(existing@) == deps_view(add_new_deps(e0, found@.take(k as int))),
        decreases found@.len() - k,
    {
        let ghost prev = add_new_deps(e0, found@.take(k as int));
        proof {
            assert(found@.take(k + 1).drop_last() =~= found@.take(k as int));
        }
        let mut present = false;
        let mut i: usize = 0;
        proof {
            assert(deps_view(existing@).len() == existing@.len());
            assert(deps_view(prev).len() == prev.len());
        }
        while i < existing.len()
            invariant
                0 <= i <= existing@.len(),
                existing@.len() == prev.len(),
                deps_view(existing@) == deps_view(prev),
                k < found@.len(),
                present == exists|j: int| 0 <= j < i && same_dep_key(#[trigger] prev[j], found@[k as int]),
            decreases existing@.len() - i,
        {
            proof {
                assert(deps_view(existing@)[i as int] == deps_view(prev)[i as int]);
                assert(dep_view(existing@[i as int]) == dep_view(prev[i as int]));
            }
            if dep_key_eq(&existing[i], &found[k]) {
                present = true;
            }
            i = i + 1;
        }
        proof {
            assert(deps_view(existing@).len() == deps_view(prev).len());
        }
        if !present {
            let ghost before = existing@;
            let d = found[k].duplicate();
            proof {
                lemma_dep_same_view(d, found@[k as int]);
            }
            existing.push(d);
            proof {
                let want = deps_view(prev.push(found@[k as int]));
                assert forall|j: int| 0 <= j < existing@.len() implies deps_view(existing@)[j] == want[j] by {
                    if j < before.len() {
                        assert(deps_view(before)[j] == deps_view(prev)[j]);
                    }
                }
                assert(deps_view(existing@) =~= want);
            }
        }
        k = k + 1;
    }
    proof {
        assert(found@.take(found@.len() as int) =~= found@);
    }
}

/// Adds to `existing` the messages of `found` whose route is new.
pub fn extend_new_msgs(existing: &mut Vec<CrossRollupMessage>, found: &Vec<CrossRollupMessage>)
    ensures
        msgs_view(final(existing)@) == msgs_view(add_new_msgs(old(existing)@, found@)),
{
    let ghost e0 = existing@;
    let mut k: usize = 0;
    while k < found.len()
        invariant
            0 <= k <= found@.len(),
            e0 == old(existing)@,
            msgs_view(existing@) == msgs_view(add_new_msgs(e0, found@.take(k as int))),
        decreases found@.len() - k,
    {
        let ghost prev = add_new_msgs(e0, found@.take(k as int));
        proof {
            assert(found@.take(k + 1).drop_last() =~= found@.take(k as int));
        }
        let present = contains_message(existing.as_slice(), &found[k]);
        proof {
            assert(msgs_view(existing@).len() == msgs_view(prev).len());
            assert forall|j: int| 0 <= j < existing@.len() implies same_route(
                #[trigger] existing@[j],
                found@[k as int],
            ) == same_route(prev[j], found@[k as int]) by {
                assert(msgs_view(existing@)[j] == msgs_view(prev)[j]);
            }
            if present {
                let j = choose|j: int| 0 <= j < existing@.len() && same_route(#[trigger] existing@[j], found@[k as int]);
                assert(same_route(prev[j], found@[k as int]));
            } else {
                assert forall|j: int| 0 <= j < prev.len() implies !same_route(#[trigger] prev[j], found@[k as int]) by {
                    assert(!same_route(existing@[j], found@[k as int]));
                }
            }
        }
        if !present {
            let ghost before = existing@;
            let m = found[k].duplicate();
            existing.push(m);
            proof {
                let want = msgs_view(prev.push(found@[k as int]));
                assert forall|j: int| 0 <= j < existing@.len() implies msgs_view(existing@)[j] == want[j] by {
                    if j < before.len() {
                        assert(msgs_view(before)[j] == msgs_view(prev)[j]);
                    }
                }
                assert(msgs_view(existing@) =~= want);
            }
        }
        k = k + 1;
    }
    proof {
        assert(found@.take(found@.len() as int) =~= found@);
    }
}

// ---------------------------------------------------------------------------
// Starting a simulation.
// ---------------------------------------------------------------------------

/// What the caller does to start simulating an XT.
#[derive(Debug)]
pub enum SimulationStart {
    /// The XT is not registered.
    Unknown,
    /// The XT carries no transaction for this chain: vote abort.
    NoLocalTransactions,
    /// Simulate `transactions` in order over `overrides`, at the given block
    /// window, knowing the messages already sent and the dependencies already
    /// fulfilled. The local chain is now locked.
    Ready {
        transactions: Vec<Vec<u8>>,
        overrides: StateOverride,
        block_number: u64,
        flashblock_index: u64,
        sent_messages: Vec<CrossRollupMessage>,
        fulfilled_deps: Vec<CrossRollupDependency>,
    },
}

/// The overlay table viewed as a map from chain.
pub open spec fn overlay_map(s: Seq<ChainOverlay>) -> Map<ChainId, ChainOverlay> {
    keyed_map(s, |o: ChainOverlay| overlay_key(o))
}

/// The overrides a simulation on chain `c` starts from: the chain's latest
/// polled overrides, with the chain's overlay merged in when it belongs to the
/// same block window.
pub open spec fn start_overrides(st: CoordinatorState, c: ChainId) -> Map<Address, AccountView> {
    let cs = chain_state_map(st.chain_states@);
    let base = if cs.dom().contains(c) && cs[c].state_overrides is Some {
        cs[c].state_overrides.unwrap().view_map()
    } else {
        Map::empty()
    };
    let (block, flash) = start_window(st, c);
    let ov = overlay_map(st.chain_overlays@);
    if ov.dom().contains(c) && ov[c].block_number == block && ov[c].flashblock_index == flash {
        merged_view(base, ov[c].overlay.view_map())
    } else {
        base
    }
}

/// The block window a simulation on chain `c` runs in: the chain's latest poll,
/// or zeros when it never polled.
pub open spec fn start_window(st: CoordinatorState, c: ChainId) -> (u64, u64) {
    let cs = chain_state_map(st.chain_states@);
    if cs.dom().contains(c) {
        (cs[c].block_number, cs[c].flashblock_index)
    } else {
        (0, 0)
    }
}

impl CoordinatorState {
    /// Index of chain `c` in the overlay table.
    fn find_overlay(&self, c: ChainId) -> (r: Option<usize>)
        requires
            self.wf(),
        ensures
            r matches Some(i) ==> i < self.chain_overlays@.len() && self.chain_overlays@[i as int].chain_id == c
                && overlay_map(self.chain_overlays@).dom().contains(c) && overlay_map(
                self.chain_overlays@,
            )[c] == self.chain_overlays@[i as int],
            r is None ==> !overlay_map(self.chain_overlays@).dom().contains(c),
    {
        let mut i: usize = 0;
        while i < self.chain_overlays.len()
            invariant
                self.wf(),
                0 <= i <= self.chain_overlays@.len(),
                forall|j: int| 0 <= j < i ==> (#[trigger] self.chain_overlays@[j]).chain_id != c,
            decreases self.chain_overlays@.len() - i,
        {
            if self.chain_overlays[i].chain_id == c {
                proof {
                    lemma_keyed_at(self.chain_overlays@, |o: ChainOverlay| overlay_key(o), i as int);
                }
                return Some(i);
            }
            i = i + 1;
        }
        proof {
            lemma_keyed_absent(self.chain_overlays@, |o: ChainOverlay| overlay_key(o), c);
        }
        None
    }

    /// Index of chain `c` in the chain-state table.
    fn find_polled(&self, c: ChainId) -> (r: Option<usize>)
        requires
            self.wf(),
        ensures
            r matches Some(i) ==> i < self.chain_states@.len() && chain_state_map(self.chain_states@).dom().contains(c)
                && chain_state_map(self.chain_states@)[c] == self.chain_states@[i as int],
            r is None ==> !chain_state_map(self.chain_states@).dom().contains(c),
    {
        let mut i: usize = 0;
        while i < self.chain_states.len()
            invariant
                self.wf(),
                0 <= i <= self.chain_states@.len(),
                forall|j: int| 0 <= j < i ==> (#[trigger] self.chain_states@[j]).chain_id != c,
            decreases self.chain_states@.len() - i,
        {
            if self.chain_states[i].chain_id == c {
                proof {
                    lemma_keyed_at(self.chain_states@, |x: crate::coordinator::ChainState| crate::coordinator::cs_key(x), i as int);
                }
                return Some(i);
            }
            i = i + 1;
        }
        proof {
            lemma_keyed_absent(self.chain_states@, |x: crate::coordinator::ChainState| crate::coordinator::cs_key(x), c);
        }
        None
    }

    /// The overrides and block window a simulation on chain `c` starts from.
    fn simulation_base(&self, c: ChainId) -> (r: (StateOverride, u64, u64))
        requires
            self.wf(),
        ensures
            r.0.wf(),
            r.0.view_map() == start_overrides(*self, c),
            (r.1, r.2) == start_window(*self, c),
    {
        let (mut overrides, block, flash) = match self.find_polled(c) {
            Some(i) => {
                let cs = &self.chain_states[i];
                proof {
                    assert(cs.state_overrides matches Some(o) ==> o.wf());
                }
                let o = match &cs.state_overrides {
                    Some(o) => o.duplicate(),
                    None => crate::coordinator::ChainOverlay::new(c, 0, 0).overlay,
                };
                (o, cs.block_number, cs.flashblock_index)
            },
            None => (crate::coordinator::ChainOverlay::new(c, 0, 0).overlay, 0, 0),
        };
        match self.find_overlay(c) {
            Some(j) => {
                if self.chain_overlays[j].matches(block, flash) {
                    proof {
                        assert(self.chain_overlays@[j as int].overlay.wf());
                    }
                    merge_overrides(&mut overrides, &self.chain_overlays[j].overlay);
                }
            },
            None => {},
        }
        (overrides, block, flash)
    }
}

/// `b` is `a` with only its locked chains changed.
pub open spec fn only_locked_changed(a: PendingXt, b: PendingXt) -> bool {
    b == PendingXt { locked_chains: b.locked_chains, ..a }
}

impl DefaultCoordinator {
    /// Starts simulating XT `instance_id` on this chain: gathers its local
    /// transactions, the starting overrides and block window, and what it has
    /// already sent and received, and locks this chain on the XT.
    pub fn begin_simulation(&mut self, instance_id: &str) -> (r: SimulationStart)
        requires
            old(self).state.wf(),
        ensures
            final(self).state.wf(),
            final(self).chain_id == old(self).chain_id,
            final(self).nonce_manager@ == old(self).nonce_manager@,
            final(self).state.same_except_pending(&old(self).state),
            ({
                let m = old(self).state.pending_map();
                let own = old(self).chain_id;
                if !m.dom().contains(instance_id@) {
                    r is Unknown && final(self).state == old(self).state
                } else if !(txs_for(m[instance_id@], own) matches Some(t) && t.len() > 0) {
                    r is NoLocalTransactions && final(self).state == old(self).state
                } else {
                    let x = m[instance_id@];
                    &&& r matches SimulationStart::Ready {
                        transactions,
                        overrides,
                        block_number,
                        flashblock_index,
                        sent_messages,
                        fulfilled_deps,
                    } && bytes_view(transactions@) == txs_for(x, own).unwrap() && overrides.wf()
                        && overrides.view_map() == start_overrides(old(self).state, own)
                        && (block_number, flashblock_index) == start_window(old(self).state, own)
                        && msgs_view(sent_messages@) == msgs_view(x.outbound_messages@)
                        && deps_view(fulfilled_deps@) == deps_view(x.fulfilled_deps@)
                    &&& final(self).state.pending_map().dom() == m.dom()
                    &&& forall|k: Seq<char>| m.dom().contains(k) && k != instance_id@
                        ==> #[trigger] final(self).state.pending_map()[k] == m[k]
                    &&& only_locked_changed(x, final(self).state.pending_map()[instance_id@])
                    &&& final(self).state.pending_map()[instance_id@].locked_chains@.to_set()
                        == x.locked_chains@.to_set().insert(own)
                }
            }),
    {
        let i = match self.state.find_pending(instance_id) {
            Some(i) => i,
            None => {
                return SimulationStart::Unknown;
            },
        };
        let transactions = match chain_txs(&self.state.pending[i], self.chain_id) {
            Some(t) => {
                if t.len() == 0 {
                    return SimulationStart::NoLocalTransactions;
                }
                let copied = clone_byte_vecs(t);
                proof {
                    assert(bytes_view(copied@) =~= bytes_view(t@));
                }
                copied
            },
            None => {
                return SimulationStart::NoLocalTransactions;
            },
        };
        let (overrides, block_number, flashblock_index) = self.state.simulation_base(self.chain_id);
        let sent_messages = copy_msgs(&self.state.pending[i].outbound_messages);
        let fulfilled_deps = copy_deps(&self.state.pending[i].fulfilled_deps);
        let ghost before = self.state.pending@;
        let mut xt = self.state.pending.remove(i);
        let ghost x0 = xt;
        crate::xt::insert_chain(&mut xt.locked_chains, self.chain_id);
        proof {
            assert(only_locked_changed(x0, xt));
        }
        self.state.pending.insert(i, xt);
        proof {
            self.state.lemma_put_back(before, i as int);
        }
        SimulationStart::Ready {
            transactions,
            overrides,
            block_number,
            flashblock_index,
            sent_messages,
            fulfilled_deps,
        }
    }
}

// ---------------------------------------------------------------------------
// Recording a simulation result.
// ---------------------------------------------------------------------------

/// `b` is `a` with only its dependencies and outbound messages changed.
pub open spec fn only_findings_changed(a: PendingXt, b: PendingXt) -> bool {
    b == PendingXt { dependencies: b.dependencies, outbound_messages: b.outbound_messages, ..a }
}

/// The overlay of a chain after a successful simulation in window
/// `(block, flash)` produced `merged`: a missing overlay, one of another
/// window, or one of a later block starts afresh; `merged` is then merged in.
pub open spec fn next_overlay(
    ov: Map<ChainId, ChainOverlay>,
    c: ChainId,
    block: u64,
    flash: u64,
    merged: Map<Address, AccountView>,
) -> (u64, u64, Map<Address, AccountView>) {
    if ov.dom().contains(c) && ov[c].block_number == block && ov[c].flashblock_index == flash {
        (block, flash, merged_view(ov[c].overlay.view_map(), merged))
    } else {
        (block, flash, merged_view(Map::empty(), merged))
    }
}

impl DefaultCoordinator {
    /// Records a simulation result of XT `instance_id` that ran over `base` in
    /// window `(block_number, flashblock_index)`: the result's overrides are
    /// merged over `base` and returned for the next step; new dependencies and
    /// outbound messages are added to the XT; on success the merged overrides
    /// also join this chain's overlay for the window. An unknown XT changes
    /// nothing and gets `base` back.
    pub fn record_simulation_state(
        &mut self,
        instance_id: &str,
        result: &SimulationResult,
        base: &StateOverride,
        block_number: u64,
        flashblock_index: u64,
    ) -> (merged: StateOverride)
        requires
            old(self).state.wf(),
            base.wf(),
            result.state_overrides matches Some(o) ==> o.wf(),
        ensures
            final(self).state.wf(),
            final(self).chain_id == old(self).chain_id,
            final(self).nonce_manager@ == old(self).nonce_manager@,
            merged.wf(),
            ({
                let m = old(self).state.pending_map();
                let own = old(self).chain_id;
                let mv = match result.state_overrides {
                    Some(o) => merged_view(base.view_map(), o.view_map()),
                    None => base.view_map(),
                };
                if !m.dom().contains(instance_id@) {
                    merged.view_map() == base.view_map() && final(self).state == old(self).state
                } else {
                    let x = m[instance_id@];
                    let y = final(self).state.pending_map()[instance_id@];
                    let ovm = overlay_map(final(self).state.chain_overlays@);
                    let next = next_overlay(
                        overlay_map(old(self).state.chain_overlays@),
                        own,
                        block_number,
                        flashblock_index,
                        mv,
                    );
                    &&& merged.view_map() == mv
                    &&& final(self).state.pending_map().dom() == m.dom()
                    &&& forall|k: Seq<char>| m.dom().contains(k) && k != instance_id@
                        ==> #[trigger] final(self).state.pending_map()[k] == m[k]
                    &&& only_findings_changed(x, y)
                    &&& deps_view(y.dependencies@) == deps_view(add_new_deps(x.dependencies@, result.dependencies@))
                    &&& msgs_view(y.outbound_messages@) == msgs_view(add_new_msgs(x.outbound_messages@, result.outbound_messages@))
                    &&& final(self).state.publisher_period == old(self).state.publisher_period
                    &&& final(self).state.chain_states == old(self).state.chain_states
                    &&& final(self).state.mailbox_buffer == old(self).state.mailbox_buffer
                    &&& final(self).state.submitted_fingerprints == old(self).state.submitted_fingerprints
                    &&& final(self).state.pending_submissions == old(self).state.pending_submissions
                    &&& final(self).state.origin_seq == old(self).state.origin_seq
                    &&& (!result.success ==> final(self).state.chain_overlays == old(self).state.chain_overlays)
                    &&& (result.success ==> {
                        &&& ovm.dom() == overlay_map(old(self).state.chain_overlays@).dom().insert(own)
                        &&& forall|c: ChainId| #[trigger] ovm.dom().contains(c) && c != own ==> ovm[c] == overlay_map(old(self).state.chain_overlays@)[c]
                        &&& ovm[own].block_number == next.0
                        &&& ovm[own].flashblock_index == next.1
                        &&& ovm[own].overlay.view_map() == next.2
                    })
                }
            }),
    {
        let i = match self.state.find_pending(instance_id) {
            Some(i) => i,
            None => {
                return base.duplicate();
            },
        };
        let mut merged = base.duplicate();
        match &result.state_overrides {
            Some(o) => merge_overrides(&mut merged, o),
            None => {},
        }
        let ghost before = self.state.pending@;
        let mut xt = self.state.pending.remove(i);
        let ghost x0 = xt;
        extend_new_deps(&mut xt.dependencies, &result.dependencies);
        extend_new_msgs(&mut xt.outbound_messages, &result.outbound_messages);
        proof {
            assert(only_findings_changed(x0, xt));
        }
        self.state.pending.insert(i, xt);
        proof {
            self.state.lemma_put_back(before, i as int);
        }
        if result.success {
            self.update_overlay(block_number, flashblock_index, &merged);
        }
        merged
    }

    /// Merges `merged` into this chain's overlay for the given window.
    fn update_overlay(&mut self, block_number: u64, flashblock_index: u64, merged: &StateOverride)
        requires
            old(self).state.wf(),
            merged.wf(),
        ensures
            final(self).state.wf(),
            final(self).chain_id == old(self).chain_id,
            final(self).nonce_manager == old(self).nonce_manager,
            final(self).state.pending == old(self).state.pending,
            final(self).state.publisher_period == old(self).state.publisher_period,
            final(self).state.chain_states == old(self).state.chain_states,
            final(self).state.mailbox_buffer == old(self).state.mailbox_buffer,
            final(self).state.submitted_fingerprints == old(self).state.submitted_fingerprints,
            final(self).state.pending_submissions == old(self).state.pending_submissions,
            final(self).state.origin_seq == old(self).state.origin_seq,
            ({
                let own = old(self).chain_id;
                let ovm = overlay_map(final(self).state.chain_overlays@);
                let next = next_overlay(
                    overlay_map(old(self).state.chain_overlays@),
                    own,
                    block_number,
                    flashblock_index,
                    merged.view_map(),
                );
                &&& ovm.dom() == overlay_map(old(self).state.chain_overlays@).dom().insert(own)
                &&& forall|c: ChainId| #[trigger] ovm.dom().contains(c) && c != own ==> ovm[c] == overlay_map(old(self).state.chain_overlays@)[c]
                &&& ovm[own].block_number == next.0
                &&& ovm[own].flashblock_index == next.1
                &&& ovm[own].overlay.view_map() == next.2
            }),
    {
        let own = self.chain_id;
        let ghost before = self.state.chain_overlays@;
        match self.state.find_overlay(own) {
            Some(j) => {
                let mut o = self.state.chain_overlays.remove(j);
                proof {
                    assert(o.overlay.wf());
                }
                if !o.matches(block_number, flashblock_index) || block_number < o.block_number {
                    o = ChainOverlay::new(own, block_number, flashblock_index);
                }
                merge_overrides(&mut o.overlay, merged);
                self.state.chain_overlays.insert(j, o);
                proof {
                    assert(self.state.chain_overlays@ =~= before.update(j as int, o));
                    lemma_keyed_update(before, |o: ChainOverlay| overlay_key(o), j as int, o);
                    assert forall|x: int| 0 <= x < self.state.chain_overlays@.len() implies (#[trigger] self.state.chain_overlays@[x]).overlay.wf() by {
                        if x != j {
                            assert(self.state.chain_overlays@[x] == before[x]);
                        }
                    }
                    assert(overlay_map(self.state.chain_overlays@).dom() =~= overlay_map(before).dom().insert(own));
                }
            },
            None => {
                let mut o = ChainOverlay::new(own, block_number, flashblock_index);
                merge_overrides(&mut o.overlay, merged);
                proof {
                    lemma_keyed_push(before, |o: ChainOverlay| overlay_key(o), o);
                }
                self.state.chain_overlays.push(o);
                proof {
                    assert forall|x: int| 0 <= x < self.state.chain_overlays@.len() implies (#[trigger] self.state.chain_overlays@[x]).overlay.wf() by {
                        if x < before.len() {
                            assert(self.state.chain_overlays@[x] == before[x]);
                        }
                    }
                    assert(overlay_map(self.state.chain_overlays@).dom() =~= overlay_map(before).dom().insert(own));
                }
            },
        }
    }
}

// ---------------------------------------------------------------------------
// Fulfilling dependencies from the mailbox.
// ---------------------------------------------------------------------------

/// A dependency view with its data replaced.
pub open spec fn with_data(
    v: (ChainId, ChainId, Address, Address, Seq<u8>, Option<Seq<u8>>, Option<U256>),
    data: Option<Seq<u8>>,
) -> (ChainId, ChainId, Address, Address, Seq<u8>, Option<Seq<u8>>, Option<U256>) {
    (v.0, v.1, v.2, v.3, v.4, data, v.6)
}

/// Two dependency views with the same key fields.
pub open spec fn same_key_view(
    a: (ChainId, ChainId, Address, Address, Seq<u8>, Option<Seq<u8>>, Option<U256>),
    b: (ChainId, ChainId, Address, Address, Seq<u8>, Option<Seq<u8>>, Option<U256>),
) -> bool {
    a.0 == b.0 && a.1 == b.1 && a.2 == b.2 && a.3 == b.3 && a.4 == b.4 && a.6 == b.6
}

/// Progress of fulfilling dependencies: the XT's pending mailbox, its
/// fulfilled dependencies (by contents), and how many were added.
pub struct FulfillState {
    pub mailbox: Seq<MailboxMessage>,
    pub fulfilled: Seq<(ChainId, ChainId, Address, Address, Seq<u8>, Option<Seq<u8>>, Option<U256>)>,
    pub added: nat,
}

/// A dependency with the key fields of `v` is in `fulfilled`.
#[verifier::opaque]
pub open spec fn key_fulfilled(
    fulfilled: Seq<(ChainId, ChainId, Address, Address, Seq<u8>, Option<Seq<u8>>, Option<U256>)>,
    v: (ChainId, ChainId, Address, Address, Seq<u8>, Option<Seq<u8>>, Option<U256>),
) -> bool {
    exists|i: int| 0 <= i < fulfilled.len() && same_key_view(#[trigger] fulfilled[i], v)
}

/// The index of the first message of `mailbox` that satisfies `dep`.
#[verifier::opaque]
pub open spec fn first_match(mailbox: Seq<MailboxMessage>, dep: CrossRollupDependency) -> Option<int> {
    if exists|i: int| 0 <= i < mailbox.len() && spec_matches_dependency(#[trigger] mailbox[i], dep) {
        Some(
            choose|i: int|
                0 <= i < mailbox.len() && spec_matches_dependency(#[trigger] mailbox[i], dep)
                    && forall|j: int| 0 <= j < i ==> !spec_matches_dependency(#[trigger] mailbox[j], dep),
        )
    } else {
        None
    }
}

/// One step of fulfilling: a dependency already fulfilled (by key) is
/// skipped; otherwise the first pending message that satisfies it is taken
/// out of the mailbox, and the dependency, with that message's first data
/// item, becomes fulfilled.
pub open spec fn fulfill_step(st: FulfillState, dep: CrossRollupDependency) -> FulfillState {
    if key_fulfilled(st.fulfilled, dep_view(dep)) {
        st
    } else {
        match first_match(st.mailbox, dep) {
            None => st,
            Some(j) => FulfillState {
                mailbox: st.mailbox.remove(j),
                fulfilled: st.fulfilled.push(
                    with_data(
                        dep_view(dep),
                        if st.mailbox[j].data@.len() > 0 {
                            Some(st.mailbox[j].data@[0]@)
                        } else {
                            None
                        },
                    ),
                ),
                added: st.added + 1,
            },
        }
    }
}

/// Fulfilling the dependencies `deps` in order.
pub open spec fn fulfill_all(st: FulfillState, deps: Seq<CrossRollupDependency>) -> FulfillState
    decreases deps.len(),
{
    if deps.len() == 0 {
        st
    } else {
        fulfill_step(fulfill_all(st, deps.drop_last()), deps.last())
    }
}

/// `b` is `a` with only its pending mailbox and fulfilled dependencies changed.
pub open spec fn only_fulfilment_changed(a: PendingXt, b: PendingXt) -> bool {
    b == PendingXt { pending_mailbox: b.pending_mailbox, fulfilled_deps: b.fulfilled_deps, ..a }
}

/// Index of the first message of `mailbox` that satisfies `dep`.
fn find_match(mailbox: &Vec<MailboxMessage>, dep: &CrossRollupDependency) -> (r: Option<usize>)
    ensures
        r matches Some(i) ==> first_match(mailbox@, *dep) == Some(i as int) && i < mailbox@.len(),
        r is None ==> first_match(mailbox@, *dep) is None,
{
    reveal(first_match);
    let mut i: usize = 0;
    while i < mailbox.len()
        invariant
            0 <= i <= mailbox@.len(),
            forall|j: int| 0 <= j < i ==> !spec_matches_dependency(#[trigger] mailbox@[j], *dep),
        decreases mailbox@.len() - i,
    {
        if matches_dependency(&mailbox[i], dep) {
            proof {
                reveal(first_match);
                let q = choose|q: int|
                    0 <= q < mailbox@.len() && spec_matches_dependency(#[trigger] mailbox@[q], *dep)
                        && forall|j: int| 0 <= j < q ==> !spec_matches_dependency(#[trigger] mailbox@[j], *dep);
                assert(spec_matches_dependency(mailbox@[i as int], *dep));
                if q < i {
                    assert(!spec_matches_dependency(mailbox@[q], *dep));
                }
                if i < q {
                    assert(!spec_matches_dependency(mailbox@[i as int], *dep));
                }
            }
            return Some(i);
        }
        i = i + 1;
    }
    None
}

/// Whether a dependency with the same key as `dep` is in `fulfilled`.
fn already_fulfilled(fulfilled: &Vec<CrossRollupDependency>, dep: &CrossRollupDependency) -> (r: bool)
    ensures
        r == key_fulfilled(deps_view(fulfilled@), dep_view(*dep)),
{
    reveal(key_fulfilled);
    let mut f: usize = 0;
    while f < fulfilled.len()
        invariant
            0 <= f <= fulfilled@.len(),
            forall|j: int| 0 <= j < f ==> !same_key_view(#[trigger] deps_view(fulfilled@)[j], dep_view(*dep)),
        decreases fulfilled@.len() - f,
    {
        proof {
            assert(deps_view(fulfilled@)[f as int] == dep_view(fulfilled@[f as int]));
        }
        if dep_key_eq(&fulfilled[f], dep) {
            proof {
                reveal(key_fulfilled);
                assert(same_key_view(deps_view(fulfilled@)[f as int], dep_view(*dep)));
            }
            return true;
        }
        f = f + 1;
    }
    false
}

/// Takes message `j` out of `mailbox` and records `dep`, with that message's
/// first data item, as fulfilled.
fn take_match(
    mailbox: &mut Vec<MailboxMessage>,
    fulfilled: &mut Vec<CrossRollupDependency>,
    dep: &CrossRollupDependency,
    j: usize,
)
    requires
        j < old(mailbox)@.len(),
    ensures
        final(mailbox)@ == old(mailbox)@.remove(j as int),
        deps_view(final(fulfilled)@) == deps_view(old(fulfilled)@).push(
            with_data(
                dep_view(*dep),
                if old(mailbox)@[j as int].data@.len() > 0 {
                    Some(old(mailbox)@[j as int].data@[0]@)
                } else {
                    None
                },
            ),
        ),
{
    let msg = mailbox.remove(j);
    let mut d = dep.duplicate();
    let ghost d0 = d;
    d.data = if msg.data.len() > 0 {
        Some(crate::util::copy_bytes(msg.data[0].as_slice()))
    } else {
        None
    };
    proof {
        assert(d0.same_as(dep));
    }
    let ghost fb = fulfilled@;
    fulfilled.push(d);
    proof {
        assert(deps_view(fulfilled@) =~= deps_view(fb).push(dep_view(d)));
    }
}

/// One fulfilling step for `dep` on a pending mailbox and a fulfilled list;
/// returns whether `dep` was fulfilled.
fn fulfill_one(
    mailbox: &mut Vec<MailboxMessage>,
    fulfilled: &mut Vec<CrossRollupDependency>,
    dep: &CrossRollupDependency,
) -> (done: bool)
    ensures
        ({
            let st = FulfillState { mailbox: old(mailbox)@, fulfilled: deps_view(old(fulfilled)@), added: 0 };
            let next = fulfill_step(st, *dep);
            &&& final(mailbox)@ == next.mailbox
            &&& deps_view(final(fulfilled)@) == next.fulfilled
            &&& done == (next.added == 1)
        }),
{
    if already_fulfilled(fulfilled, dep) {
        return false;
    }
    match find_match(mailbox, dep) {
        Some(j) => {
            take_match(mailbox, fulfilled, dep, j);
            true
        },
        None => false,
    }
}

/// Fulfilling from a state with `added` counted is the same as from zero,
/// shifted by `added`.
proof fn lemma_fulfill_step_added(st: FulfillState, dep: CrossRollupDependency)
    ensures
        fulfill_step(st, dep).mailbox == fulfill_step(FulfillState { added: 0, ..st }, dep).mailbox,
        fulfill_step(st, dep).fulfilled == fulfill_step(FulfillState { added: 0, ..st }, dep).fulfilled,
        fulfill_step(st, dep).added == st.added + fulfill_step(FulfillState { added: 0, ..st }, dep).added,
{
}

impl DefaultCoordinator {
    /// Fulfills the dependencies `deps` of XT `instance_id` from its pending
    /// mailbox and returns how many were fulfilled.
    pub fn fulfill_dependencies_from_mailbox(
        &mut self,
        instance_id: &str,
        deps: &Vec<CrossRollupDependency>,
    ) -> (added: usize)
        requires
            old(self).state.wf(),
        ensures
            final(self).state.wf(),
            final(self).chain_id == old(self).chain_id,
            final(self).nonce_manager@ == old(self).nonce_manager@,
            final(self).state.same_except_pending(&old(self).state),
            ({
                let m = old(self).state.pending_map();
                if !m.dom().contains(instance_id@) {
                    added == 0 && final(self).state == old(self).state
                } else {
                    let x = m[instance_id@];
                    let y = final(self).state.pending_map()[instance_id@];
                    let st = fulfill_all(
                        FulfillState {
                            mailbox: x.pending_mailbox@,
                            fulfilled: deps_view(x.fulfilled_deps@),
                            added: 0,
                        },
                        deps@,
                    );
                    &&& added == st.added
                    &&& final(self).state.pending_map().dom() == m.dom()
                    &&& forall|k: Seq<char>| m.dom().contains(k) && k != instance_id@
                        ==> #[trigger] final(self).state.pending_map()[k] == m[k]
                    &&& only_fulfilment_changed(x, y)
                    &&& y.pending_mailbox@ == st.mailbox
                    &&& deps_view(y.fulfilled_deps@) == st.fulfilled
                }
            }),
    {
        let i = match self.state.find_pending(instance_id) {
            Some(i) => i,
            None => {
                return 0;
            },
        };
        let ghost before = self.state.pending@;
        let mut xt = self.state.pending.remove(i);
        let ghost x0 = xt;
        let ghost st0 = FulfillState {
            mailbox: x0.pending_mailbox@,
            fulfilled: deps_view(x0.fulfilled_deps@),
            added: 0,
        };
        let mut added: usize = 0;
        let mut k: usize = 0;
        while k < deps.len()
            invariant
                0 <= k <= deps@.len(),
                xt_wf(xt),
                only_fulfilment_changed(x0, xt),
                ({
                    let st = fulfill_all(st0, deps@.take(k as int));
                    &&& xt.pending_mailbox@ == st.mailbox
                    &&& deps_view(xt.fulfilled_deps@) == st.fulfilled
                    &&& added == st.added
                }),
                added <= k,
            decreases deps@.len() - k,
        {
            let ghost st = fulfill_all(st0, deps@.take(k as int));
            proof {
                assert(deps@.take(k + 1).drop_last() =~= deps@.take(k as int));
            }
            proof {
                lemma_fulfill_step_added(st, deps@[k as int]);
            }
            let ghost xb = xt;
            if fulfill_one(&mut xt.pending_mailbox, &mut xt.fulfilled_deps, &deps[k]) {
                added = added + 1;
            }
            proof {
                assert(only_fulfilment_changed(xb, xt));
            }
            k = k + 1;
        }
        proof {
            assert(deps@.take(deps@.len() as int) =~= deps@);
        }
        self.state.pending.insert(i, xt);
        proof {
            self.state.lemma_put_back(before, i as int);
        }
        added
    }
}

// ---------------------------------------------------------------------------
// Dispatching outbound messages.
// ---------------------------------------------------------------------------

/// A mailbox message viewed by contents.
pub open spec fn mailbox_view(m: MailboxMessage) -> (Seq<u8>, u64, u64, Seq<u8>, Seq<u8>, Seq<char>, Seq<Seq<u8>>, u64) {
    (m.instance_id@, m.source_chain, m.destination_chain, m.source@, m.receiver@, m.label@, bytes_view(m.data@), m.session_id)
}

/// Mailbox messages viewed by contents.
pub open spec fn mailboxes_view(s: Seq<MailboxMessage>) -> Seq<(Seq<u8>, u64, u64, Seq<u8>, Seq<u8>, Seq<char>, Seq<Seq<u8>>, u64)> {
    s.map_values(|m: MailboxMessage| mailbox_view(m))
}

/// Two mailbox message views with the same deduplication key: instance,
/// chains, sender, receiver and label.
pub open spec fn same_mailbox_key(
    a: (Seq<u8>, u64, u64, Seq<u8>, Seq<u8>, Seq<char>, Seq<Seq<u8>>, u64),
    b: (Seq<u8>, u64, u64, Seq<u8>, Seq<u8>, Seq<char>, Seq<Seq<u8>>, u64),
) -> bool {
    a.0 == b.0 && a.1 == b.1 && a.2 == b.2 && a.3 == b.3 && a.4 == b.4 && a.5 == b.5
}

/// The wire message for outbound message `m` of the XT with raw id `raw`: the
/// session id travels as `u64` (zero when absent or too large), the data as a
/// single item.
pub open spec fn outbound_view(raw: Seq<u8>, m: CrossRollupMessage) -> (Seq<u8>, u64, u64, Seq<u8>, Seq<u8>, Seq<char>, Seq<Seq<u8>>, u64) {
    (
        raw,
        m.source_chain_id.0,
        m.dest_chain_id.0,
        m.sender@,
        m.receiver@,
        m.label@,
        seq![m.data@],
        match m.session_id {
            Some(v) => match spec_u256_to_u64(v) {
                Some(x) => x,
                None => 0,
            },
            None => 0,
        },
    )
}

/// Messages already sent and messages to send now.
pub struct DispatchState {
    pub sent: Seq<(Seq<u8>, u64, u64, Seq<u8>, Seq<u8>, Seq<char>, Seq<Seq<u8>>, u64)>,
    pub to_send: Seq<(Seq<u8>, u64, u64, Seq<u8>, Seq<u8>, Seq<char>, Seq<Seq<u8>>, u64)>,
}

/// A message with the key of `v` was already sent.
#[verifier::opaque]
pub open spec fn key_sent(
    sent: Seq<(Seq<u8>, u64, u64, Seq<u8>, Seq<u8>, Seq<char>, Seq<Seq<u8>>, u64)>,
    v: (Seq<u8>, u64, u64, Seq<u8>, Seq<u8>, Seq<char>, Seq<Seq<u8>>, u64),
) -> bool {
    exists|i: int| 0 <= i < sent.len() && same_mailbox_key(#[trigger] sent[i], v)
}

/// Dispatching `msgs` in order: each becomes a wire message; one whose key
/// was already sent is dropped, the others are recorded as sent and sent.
pub open spec fn dispatch_all(st: DispatchState, raw: Seq<u8>, msgs: Seq<CrossRollupMessage>) -> DispatchState
    decreases msgs.len(),
{
    if msgs.len() == 0 {
        st
    } else {
        let prev = dispatch_all(st, raw, msgs.drop_last());
        let v = outbound_view(raw, msgs.last());
        if key_sent(prev.sent, v) {
            prev
        } else {
            DispatchState { sent: prev.sent.push(v), to_send: prev.to_send.push(v) }
        }
    }
}

proof fn lemma_dispatch_grows(st: DispatchState, raw: Seq<u8>, msgs: Seq<CrossRollupMessage>)
    ensures
        forall|v: (Seq<u8>, u64, u64, Seq<u8>, Seq<u8>, Seq<char>, Seq<Seq<u8>>, u64)|
            key_sent(st.sent, v) ==> #[trigger] key_sent(dispatch_all(st, raw, msgs).sent, v),
        forall|i: int|
            0 <= i < msgs.len() ==> key_sent(
                dispatch_all(st, raw, msgs).sent,
                #[trigger] outbound_view(raw, msgs[i]),
            ),
    decreases msgs.len(),
{
    reveal(key_sent);
    if msgs.len() > 0 {
        let prev = dispatch_all(st, raw, msgs.drop_last());
        lemma_dispatch_grows(st, raw, msgs.drop_last());
        let v = outbound_view(raw, msgs.last());
        let after = dispatch_all(st, raw, msgs);
        assert forall|w: (Seq<u8>, u64, u64, Seq<u8>, Seq<u8>, Seq<char>, Seq<Seq<u8>>, u64)|
            key_sent(prev.sent, w) implies key_sent(after.sent, w) by {
            if !key_sent(prev.sent, v) {
                let j = choose|j: int| 0 <= j < prev.sent.len() && same_mailbox_key(#[trigger] prev.sent[j], w);
                assert(after.sent[j] == prev.sent[j]);
            }
        }
        assert forall|i: int| 0 <= i < msgs.len() implies key_sent(
            after.sent,
            #[trigger] outbound_view(raw, msgs[i]),
        ) by {
            if i < msgs.len() - 1 {
                assert(msgs[i] == msgs.drop_last()[i]);
            } else if !key_sent(prev.sent, v) {
                assert(same_mailbox_key(after.sent[prev.sent.len() as int], v));
            }
        }
    }
}

proof fn lemma_dispatch_all_sent(st: DispatchState, raw: Seq<u8>, msgs: Seq<CrossRollupMessage>)
    requires
        forall|i: int| 0 <= i < msgs.len() ==> key_sent(st.sent, #[trigger] outbound_view(raw, msgs[i])),
    ensures
        dispatch_all(st, raw, msgs) == st,
    decreases msgs.len(),
{
    if msgs.len() > 0 {
        assert forall|i: int| 0 <= i < msgs.drop_last().len() implies key_sent(
            st.sent,
            #[trigger] outbound_view(raw, msgs.drop_last()[i]),
        ) by {
            assert(msgs.drop_last()[i] == msgs[i]);
        }
        lemma_dispatch_all_sent(st, raw, msgs.drop_last());
        assert(key_sent(st.sent, outbound_view(raw, msgs[msgs.len() - 1])));
    }
}

/// Outbound messages are sent once: dispatching the same messages again,
/// from the sent record the first dispatch left, sends nothing and records
/// nothing new.
pub proof fn lemma_dispatch_sends_once(
    sent: Seq<(Seq<u8>, u64, u64, Seq<u8>, Seq<u8>, Seq<char>, Seq<Seq<u8>>, u64)>,
    raw: Seq<u8>,
    msgs: Seq<CrossRollupMessage>,
)
    ensures
        ({
            let first = dispatch_all(DispatchState { sent, to_send: Seq::empty() }, raw, msgs);
            let again = dispatch_all(
                DispatchState { sent: first.sent, to_send: Seq::empty() },
                raw,
                msgs,
            );
            &&& again.to_send.len() == 0
            &&& again.sent == first.sent
        }),
{
    let st0 = DispatchState { sent, to_send: Seq::empty() };
    let first = dispatch_all(st0, raw, msgs);
    lemma_dispatch_grows(st0, raw, msgs);
    lemma_dispatch_all_sent(DispatchState { sent: first.sent, to_send: Seq::empty() }, raw, msgs);
}

/// The deduplication key text of a mailbox message:
/// `hex(instance):source:dest:hex(sender):hex(receiver):label`.
pub open spec fn spec_mailbox_message_key(m: MailboxMessage) -> Seq<char> {
    crate::codec::spec_hex(m.instance_id@) + ":"@ + crate::codec::spec_decimal(m.source_chain) + ":"@
        + crate::codec::spec_decimal(m.destination_chain) + ":"@ + crate::codec::spec_hex(m.source@)
        + ":"@ + crate::codec::spec_hex(m.receiver@) + ":"@ + m.label@
}

/// Deduplication key of a mailbox message.
pub fn mailbox_message_key(m: &MailboxMessage) -> (s: String)
    ensures
        s@ == spec_mailbox_message_key(*m),
{
    let mut s = crate::codec::hex_encode(m.instance_id.as_slice());
    s.append(":");
    s.append(crate::codec::decimal(m.source_chain).as_str());
    s.append(":");
    s.append(crate::codec::decimal(m.destination_chain).as_str());
    s.append(":");
    s.append(crate::codec::hex_encode(m.source.as_slice()).as_str());
    s.append(":");
    s.append(crate::codec::hex_encode(m.receiver.as_slice()).as_str());
    s.append(":");
    s.append(m.label.as_str());
    s
}

/// Whether a message with the key of `m` is in `sent`.
fn already_sent(sent: &Vec<MailboxMessage>, m: &MailboxMessage) -> (r: bool)
    ensures
        r == key_sent(mailboxes_view(sent@), mailbox_view(*m)),
{
    let mut i: usize = 0;
    while i < sent.len()
        invariant
            0 <= i <= sent@.len(),
            forall|j: int| 0 <= j < i ==> !same_mailbox_key(#[trigger] mailboxes_view(sent@)[j], mailbox_view(*m)),
        decreases sent@.len() - i,
    {
        let x = &sent[i];
        if bytes_eq(x.instance_id.as_slice(), m.instance_id.as_slice()) && x.source_chain == m.source_chain
            && x.destination_chain == m.destination_chain && bytes_eq(x.source.as_slice(), m.source.as_slice())
            && bytes_eq(x.receiver.as_slice(), m.receiver.as_slice()) && crate::util::str_eq(
            x.label.as_str(),
            m.label.as_str(),
        ) {
            proof {
                reveal(key_sent);
                assert(same_mailbox_key(mailboxes_view(sent@)[i as int], mailbox_view(*m)));
            }
            return true;
        }
        proof {
            assert(mailboxes_view(sent@)[i as int] == mailbox_view(sent@[i as int]));
        }
        i = i + 1;
    }
    proof {
        reveal(key_sent);
    }
    false
}

/// The wire message for an outbound message of the XT with raw id `raw`.
fn to_wire(raw: &Vec<u8>, m: &CrossRollupMessage) -> (w: MailboxMessage)
    ensures
        mailbox_view(w) == outbound_view(raw@, *m),
{
    let session = match &m.session_id {
        Some(v) => match u256_to_u64(v) {
            Some(x) => x,
            None => 0,
        },
        None => 0,
    };
    let mut data: Vec<Vec<u8>> = Vec::new();
    data.push(crate::util::copy_bytes(m.data.as_slice()));
    let w = MailboxMessage {
        instance_id: crate::util::copy_bytes(raw.as_slice()),
        source_chain: m.source_chain_id.0,
        destination_chain: m.dest_chain_id.0,
        source: crate::util::copy_bytes(m.sender.as_slice()),
        receiver: crate::util::copy_bytes(m.receiver.as_slice()),
        label: m.label.clone(),
        data,
        session_id: session,
    };
    proof {
        assert(bytes_view(w.data@) =~= seq![m.data@]);
    }
    w
}

impl DefaultCoordinator {
    /// Turns the outbound messages of XT `instance_id` into wire messages,
    /// drops those already sent (by key), records the rest as sent, and
    /// returns them for the caller to send to their destination chains.
    pub fn dispatch_outbound_mailbox(&mut self, instance_id: &str, msgs: &Vec<CrossRollupMessage>) -> (out: Vec<
        MailboxMessage,
    >)
        requires
            old(self).state.wf(),
        ensures
            final(self).state.wf(),
            final(self).chain_id == old(self).chain_id,
            final(self).nonce_manager@ == old(self).nonce_manager@,
            final(self).state.same_except_pending(&old(self).state),
            ({
                let m = old(self).state.pending_map();
                if !m.dom().contains(instance_id@) {
                    out@.len() == 0 && final(self).state == old(self).state
                } else {
                    let x = m[instance_id@];
                    let y = final(self).state.pending_map()[instance_id@];
                    let st = dispatch_all(
                        DispatchState { sent: mailboxes_view(x.sent_mailbox@), to_send: Seq::empty() },
                        x.instance_id@,
                        msgs@,
                    );
                    &&& mailboxes_view(out@) == st.to_send
                    &&& final(self).state.pending_map().dom() == m.dom()
                    &&& forall|k: Seq<char>| m.dom().contains(k) && k != instance_id@
                        ==> #[trigger] final(self).state.pending_map()[k] == m[k]
                    &&& y == (PendingXt { sent_mailbox: y.sent_mailbox, ..x })
                    &&& mailboxes_view(y.sent_mailbox@) == st.sent
                }
            }),
    {
        let mut out: Vec<MailboxMessage> = Vec::new();
        let i = match self.state.find_pending(instance_id) {
            Some(i) => i,
            None => {
                return out;
            },
        };
        let ghost before = self.state.pending@;
        let mut xt = self.state.pending.remove(i);
        let ghost x0 = xt;
        let ghost st0 = DispatchState { sent: mailboxes_view(x0.sent_mailbox@), to_send: Seq::empty() };
        let mut k: usize = 0;
        while k < msgs.len()
            invariant
                0 <= k <= msgs@.len(),
                xt == (PendingXt { sent_mailbox: xt.sent_mailbox, ..x0 }),
                ({
                    let st = dispatch_all(st0, x0.instance_id@, msgs@.take(k as int));
                    &&& mailboxes_view(xt.sent_mailbox@) == st.sent
                    &&& mailboxes_view(out@) == st.to_send
                }),
            decreases msgs@.len() - k,
        {
            proof {
                assert(msgs@.take(k + 1).drop_last() =~= msgs@.take(k as int));
            }
            let w = to_wire(&xt.instance_id, &msgs[k]);
            if !already_sent(&xt.sent_mailbox, &w) {
                let w2 = to_wire(&xt.instance_id, &msgs[k]);
                let ghost s0 = xt.sent_mailbox@;
                let ghost o0 = out@;
                xt.sent_mailbox.push(w);
                out.push(w2);
                proof {
                    assert(mailboxes_view(xt.sent_mailbox@) =~= mailboxes_view(s0).push(mailbox_view(w)));
                    assert(mailboxes_view(out@) =~= mailboxes_view(o0).push(mailbox_view(w2)));
                }
            }
            k = k + 1;
        }
        proof {
            assert(msgs@.take(msgs@.len() as int) =~= msgs@);
        }
        self.state.pending.insert(i, xt);
        proof {
            self.state.lemma_put_back(before, i as int);
        }
        out
    }
}

/// Copies a list of dependencies.
pub fn copy_deps(s: &Vec<CrossRollupDependency>) -> (r: Vec<CrossRollupDependency>)
    ensures
        deps_view(r@) == deps_view(s@),
{
    let mut r: Vec<CrossRollupDependency> = Vec::new();
    let mut k: usize = 0;
    while k < s.len()
        invariant
            0 <= k <= s@.len(),
            r@.len() == k,
            forall|j: int| 0 <= j < k ==> dep_view(#[trigger] r@[j]) == dep_view(s@[j]),
        decreases s@.len() - k,
    {
        let d = s[k].duplicate();
        proof {
            lemma_dep_same_view(d, s@[k as int]);
        }
        r.push(d);
        k = k + 1;
    }
    proof {
        assert(deps_view(r@) =~= deps_view(s@));
    }
    r
}

/// Copies a list of outbound messages.
pub fn copy_msgs(s: &Vec<CrossRollupMessage>) -> (r: Vec<CrossRollupMessage>)
    ensures
        msgs_view(r@) == msgs_view(s@),
{
    let mut r: Vec<CrossRollupMessage> = Vec::new();
    let mut k: usize = 0;
    while k < s.len()
        invariant
            0 <= k <= s@.len(),
            r@.len() == k,
            forall|j: int| 0 <= j < k ==> msg_view(#[trigger] r@[j]) == msg_view(s@[j]),
        decreases s@.len() - k,
    {
        r.push(s[k].duplicate());
        k = k + 1;
    }
    proof {
        assert(msgs_view(r@) =~= msgs_view(s@));
    }
    r
}

} // verus!
