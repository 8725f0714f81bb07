//! Standalone-mode decisions from locally collected votes: each registered
//! instance expects a number of votes; once that many chains have voted, the
//! instance commits when every vote is yes and aborts otherwise.

use vstd::prelude::*;

use crate::error::CoordinatorError;
use crate::keyed::{
    keyed_map, keys_distinct, lemma_keyed_absent, lemma_keyed_at, lemma_keyed_empty,
    lemma_keyed_len, lemma_keyed_push, lemma_keyed_update,
};
use crate::lifecycle::set_peer_vote;
use crate::types::ChainId;
use crate::util::str_eq;
use crate::xt::{vote_key, PeerVote};

verus! {

broadcast use vstd::seq::group_seq_axioms;

/// The votes collected for one instance.
#[derive(Debug)]
pub struct VoteState {
    pub instance_id: String,
    pub expected: usize,
    pub votes: Vec<PeerVote>,
}

/// An instance's tally: how many votes it expects and each chain's vote.
pub struct Tally {
    pub expected: nat,
    pub votes: Map<ChainId, bool>,
}

/// The key of a vote state.
pub open spec fn state_key(s: VoteState) -> Seq<char> {
    s.instance_id@
}

/// A vote table viewed as a map from chain to vote.
pub open spec fn vote_map(v: Seq<PeerVote>) -> Map<ChainId, bool> {
    Map::new(
        |c: ChainId| keyed_map(v, |e: PeerVote| vote_key(e)).dom().contains(c),
        |c: ChainId| keyed_map(v, |e: PeerVote| vote_key(e))[c].vote,
    )
}

/// The tally of a vote state.
pub open spec fn tally(s: VoteState) -> Tally {
    Tally { expected: s.expected as nat, votes: vote_map(s.votes@) }
}

/// The decision a tally reaches: none until as many chains as expected have
/// voted; then commit exactly when every vote is yes.
pub open spec fn tally_decision(t: Tally) -> Option<bool> {
    if t.votes.dom().len() >= t.expected {
        Some(forall|c: ChainId| t.votes.dom().contains(c) ==> t.votes[c])
    } else {
        None
    }
}

/// Once a tally is complete, a single abort vote decides abort and only
/// unanimous yes votes decide commit.
pub proof fn lemma_tally_abort_wins(t: Tally, c: ChainId)
    requires
        t.votes.dom().len() >= t.expected,
    ensures
        tally_decision(t) is Some,
        t.votes.dom().contains(c) && !t.votes[c] ==> tally_decision(t) == Some(false),
        tally_decision(t) == Some(true) ==> forall|d: ChainId| #[trigger] t.votes.dom().contains(d) ==> t.votes[d],
{
}

/// Decision handler for standalone mode (no publisher).
#[derive(Debug)]
pub struct StandaloneDecisionHandler {
    states: Vec<VoteState>,
}

impl View for StandaloneDecisionHandler {
    type V = Map<Seq<char>, Tally>;

    closed spec fn view(&self) -> Map<Seq<char>, Tally> {
        Map::new(
            |k: Seq<char>| keyed_map(self.states@, |s: VoteState| state_key(s)).dom().contains(k),
            |k: Seq<char>| tally(keyed_map(self.states@, |s: VoteState| state_key(s))[k]),
        )
    }
}

impl StandaloneDecisionHandler {
    /// Instance ids are distinct, and so are the chains within each tally.
    #[verifier::type_invariant]
    spec fn wf(&self) -> bool {
        &&& keys_distinct(self.states@, |s: VoteState| state_key(s))
        &&& forall|i: int|
            0 <= i < self.states@.len() ==> keys_distinct(
                (#[trigger] self.states@[i]).votes@,
                |e: PeerVote| vote_key(e),
            )
    }

    /// A handler with no registered instance.
    pub fn new() -> (h: Self)
        ensures
            h@ == Map::<Seq<char>, Tally>::empty(),
    {
        proof {
            lemma_keyed_empty(|s: VoteState| state_key(s));
        }
        let h = StandaloneDecisionHandler { states: Vec::new() };
        proof {
            assert(h@ =~= Map::<Seq<char>, Tally>::empty());
        }
        h
    }

    fn find(&self, instance_id: &str) -> (r: Option<usize>)
        ensures
            r matches Some(i) ==> i < self.states@.len() && self.states@[i as int].instance_id@
                == instance_id@,
            r is None ==> !self@.dom().contains(instance_id@),
    {
        proof {
            use_type_invariant(self);
        }
        let mut i: usize = 0;
        while i < self.states.len()
            invariant
                0 <= i <= self.states@.len(),
                forall|j: int| 0 <= j < i ==> (#[trigger] self.states@[j]).instance_id@ != instance_id@,
            decreases self.states@.len() - i,
        {
            if str_eq(self.states[i].instance_id.as_str(), instance_id) {
                return Some(i);
            }
            i = i + 1;
        }
        proof {
            lemma_keyed_absent(self.states@, |s: VoteState| state_key(s), instance_id@);
        }
        None
    }

    /// Registers an instance expecting `expected_votes` votes, replacing any
    /// earlier registration and its votes.
    pub fn register(&mut self, instance_id: &str, expected_votes: usize)
        ensures
            final(self)@ == old(self)@.insert(
                instance_id@,
                Tally { expected: expected_votes as nat, votes: Map::empty() },
            ),
    {
        proof {
            use_type_invariant(&*self);
            lemma_keyed_empty(|e: PeerVote| vote_key(e));
        }
        let found = self.find(instance_id);
        let fresh = VoteState {
            instance_id: instance_id.to_string(),
            expected: expected_votes,
            votes: Vec::new(),
        };
        proof {
            assert(vote_map(fresh.votes@) =~= Map::<ChainId, bool>::empty());
        }
        let mut states: Vec<VoteState> = Vec::new();
        std::mem::swap(&mut states, &mut self.states);
        let ghost before = states@;
        match found {
            Some(i) => {
                proof {
                    lemma_keyed_update(before, |s: VoteState| state_key(s), i as int, fresh);
                }
                states.set(i, fresh);
                proof {
                    assert forall|j: int| 0 <= j < states@.len() implies keys_distinct(
                        (#[trigger] states@[j]).votes@,
                        |e: PeerVote| vote_key(e),
                    ) by {
                        if j != i {
                            assert(states@[j] == before[j]);
                        }
                    }
                }
            },
            None => {
                proof {
                    lemma_keyed_push(before, |s: VoteState| state_key(s), fresh);
                }
                states.push(fresh);
                proof {
                    assert forall|j: int| 0 <= j < states@.len() implies keys_distinct(
                        (#[trigger] states@[j]).votes@,
                        |e: PeerVote| vote_key(e),
                    ) by {
                        if j < before.len() {
                            assert(states@[j] == before[j]);
                        }
                    }
                }
            },
        }
        self.states = states;
        proof {
            assert(self@ =~= old(self)@.insert(
                instance_id@,
                Tally { expected: expected_votes as nat, votes: Map::empty() },
            ));
        }
    }

    /// Records `chain_id`'s vote for an instance (replacing an earlier vote of
    /// that chain) and returns the decision the tally then reaches. An
    /// instance that was never registered is an error.
    pub fn record_vote(&mut self, instance_id: &str, chain_id: u64, vote: bool) -> (r: Result<
        Option<bool>,
        CoordinatorError,
    >)
        ensures
            !old(self)@.dom().contains(instance_id@) ==> final(self)@ == old(self)@ && (r matches Err(
                CoordinatorError::InstanceNotFound(id),
            ) && id@ == instance_id@),
            old(self)@.dom().contains(instance_id@) ==> {
                let t = old(self)@[instance_id@];
                let t2 = Tally { expected: t.expected, votes: t.votes.insert(ChainId(chain_id), vote) };
                &&& final(self)@ == old(self)@.insert(instance_id@, t2)
                &&& r == Ok::<Option<bool>, CoordinatorError>(tally_decision(t2))
            },
    {
        proof {
            use_type_invariant(&*self);
        }
        let i = match self.find(instance_id) {
            Some(i) => i,
            None => {
                return Err(CoordinatorError::InstanceNotFound(instance_id.to_string()));
            },
        };
        let mut states: Vec<VoteState> = Vec::new();
        std::mem::swap(&mut states, &mut self.states);
        let ghost before = states@;
        proof {
            lemma_keyed_at(before, |s: VoteState| state_key(s), i as int);
        }
        let mut st = states.remove(i);
        assert(keys_distinct(st.votes@, |e: PeerVote| vote_key(e)));
        set_peer_vote(&mut st.votes, ChainId(chain_id), vote);
        let ghost t2 = tally(st);
        proof {
            assert(vote_map(st.votes@) =~= vote_map(before[i as int].votes@).insert(
                ChainId(chain_id),
                vote,
            ));
            lemma_keyed_len(st.votes@, |e: PeerVote| vote_key(e));
            assert(vote_map(st.votes@).dom() =~= keyed_map(st.votes@, |e: PeerVote| vote_key(e)).dom());
        }
        // Every vote is yes.
        let mut all_yes = true;
        let mut k: usize = 0;
        while k < st.votes.len()
            invariant
                0 <= k <= st.votes@.len(),
                keys_distinct(st.votes@, |e: PeerVote| vote_key(e)),
                all_yes == forall|j: int| 0 <= j < k ==> (#[trigger] st.votes@[j]).vote,
            decreases st.votes@.len() - k,
        {
            if !st.votes[k].vote {
                all_yes = false;
            }
            k = k + 1;
        }
        proof {
            let vm = vote_map(st.votes@);
            if all_yes {
                assert forall|c: ChainId| vm.dom().contains(c) implies vm[c] by {
                    let j = crate::keyed::lemma_keyed_index(st.votes@, |e: PeerVote| vote_key(e), c);
                }
            } else {
                let j = choose|j: int| 0 <= j < st.votes@.len() && !(#[trigger] st.votes@[j]).vote;
                lemma_keyed_at(st.votes@, |e: PeerVote| vote_key(e), j);
                assert(vm.dom().contains(st.votes@[j].chain_id) && !vm[st.votes@[j].chain_id]);
            }
        }
        let decision = if st.votes.len() >= st.expected {
            Some(all_yes)
        } else {
            None
        };
        let ghost st_v = st;
        proof {
            assert(state_key(st) == state_key(before[i as int]));
            lemma_keyed_update(before, |s: VoteState| state_key(s), i as int, st);
        }
        states.insert(i, st);
        proof {
            assert(states@ =~= before.update(i as int, st_v));
            assert forall|j: int| 0 <= j < states@.len() implies keys_distinct(
                (#[trigger] states@[j]).votes@,
                |e: PeerVote| vote_key(e),
            ) by {
                if j != i {
                    assert(states@[j] == before[j]);
                }
            }
        }
        self.states = states;
        proof {
            assert(self@ =~= old(self)@.insert(instance_id@, t2));
        }
        Ok(decision)
    }
}

} // verus!
