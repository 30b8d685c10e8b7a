//! Panoramas, and votes with their skip-list index into the sender's
//! earlier votes.
use vstd::prelude::*;
use vstd::std_specs::bits::{u64_trailing_zeros, axiom_u64_trailing_zeros};

use crate::state::State;

verus! {

/// The index of a validator in the validator set.
#[derive(Clone, Copy, Debug, PartialEq, Eq)]
pub struct ValidatorIndex(pub u16);

/// The observed behavior of a validator at some point in time.
#[derive(Clone, Copy, Debug, PartialEq, Eq)]
pub enum Observation {
    /// No vote by that validator was observed yet.
    Unseen,
    /// The hash of the validator's latest vote.
    Correct(u64),
    /// The validator has been seen equivocating.
    Faulty,
}

impl Observation {
    /// Returns the vote hash, if this is a correct observation.
    pub fn correct(&self) -> (r: Option<u64>)
        ensures
            r == match *self {
                Observation::Correct(h) => Some(h),
                _ => None::<u64>,
            },
    {
        match self {
            Observation::Unseen | Observation::Faulty => None,
            Observation::Correct(hash) => Some(*hash),
        }
    }

    /// Whether this is a correct observation.
    pub fn is_correct(&self) -> (r: bool)
        ensures
            r == (*self is Correct),
    {
        match self {
            Observation::Unseen | Observation::Faulty => false,
            Observation::Correct(_) => true,
        }
    }
}

/// The observed behavior of all validators at some point in time, by
/// validator index.
#[derive(Clone, Debug, PartialEq, Eq)]
pub struct Panorama(pub Vec<Observation>);

impl View for Panorama {
    type V = Seq<Observation>;

    open spec fn view(&self) -> Seq<Observation> {
        self.0@
    }
}

impl Panorama {
    /// Creates a panorama of `num_validators` validators, none of them seen.
    pub fn new(num_validators: usize) -> (r: Panorama)
        ensures
            r@ == Seq::new(num_validators as nat, |i: int| Observation::Unseen),
    {
        let mut v: Vec<Observation> = Vec::new();
        let mut i: usize = 0;
        while i < num_validators
            invariant
                i <= num_validators,
                v@ == Seq::new(i as nat, |k: int| Observation::Unseen),
            decreases num_validators - i,
        {
            v.push(Observation::Unseen);
            i = i + 1;
            proof {
                assert(v@ =~= Seq::new(i as nat, |k: int| Observation::Unseen));
            }
        }
        Panorama(v)
    }

    /// Returns the observation of validator `idx`.
    pub fn get(&self, idx: ValidatorIndex) -> (r: &Observation)
        requires
            (idx.0 as int) < self@.len(),
        ensures
            *r == self@[idx.0 as int],
    {
        &self.0[idx.0 as usize]
    }

    /// Returns `true` if there is no correct observation.
    pub fn is_empty(&self) -> (r: bool)
        ensures
            r == !exists|i: int| 0 <= i < self@.len() && #[trigger] self@[i] is Correct,
    {
        let mut i: usize = 0;
        while i < self.0.len()
            invariant
                i <= self@.len(),
                forall|k: int| 0 <= k < i ==> !(#[trigger] self@[k] is Correct),
            decreases self@.len() - i,
        {
            if self.0[i].is_correct() {
                return false;
            }
            i = i + 1;
        }
        true
    }

    /// Returns all observations, each with its validator index.
    pub fn enumerate(&self) -> (r: Vec<(ValidatorIndex, Observation)>)
        requires
            self@.len() <= 0x1_0000,
        ensures
            r@.len() == self@.len(),
            forall|i: int| 0 <= i < r@.len() ==> #[trigger] r@[i] == (ValidatorIndex(i as u16), self@[i]),
    {
        let mut r: Vec<(ValidatorIndex, Observation)> = Vec::new();
        let mut i: usize = 0;
        while i < self.0.len()
            invariant
                i <= self@.len(),
                self@.len() <= 0x1_0000,
                r@.len() == i,
                forall|k: int| 0 <= k < i ==> #[trigger] r@[k] == (ValidatorIndex(k as u16), self@[k]),
            decreases self@.len() - i,
        {
            r.push((ValidatorIndex(i as u16), self.0[i]));
            i = i + 1;
        }
        r
    }

    /// Sets the observation of validator `idx`.
    pub fn update(&mut self, idx: ValidatorIndex, obs: Observation)
        requires
            (idx.0 as int) < old(self)@.len(),
        ensures
            final(self)@ == old(self)@.update(idx.0 as int, obs),
    {
        self.0.set(idx.0 as usize, obs);
    }
}

/// A vote as stored in the state.
#[derive(Clone, Debug, PartialEq, Eq)]
pub struct Vote {
    /// The latest votes and faults the sender had observed.
    pub panorama: Panorama,
    /// The number of earlier votes by the same sender.
    pub seq_number: u64,
    /// The validator who sent this vote.
    pub sender: ValidatorIndex,
    /// The block this is a vote for.
    pub block: u64,
    /// For each `i` such that `1 << i` divides `seq_number`, the hash of the
    /// sender's vote with sequence number `seq_number - (1 << i)`.
    pub skip_idx: Vec<u64>,
}

/// What a wire vote must satisfy to be turned into a stored vote: its
/// sender is in its panorama; the sender's own entry there is its previous
/// vote, stored with the preceding sequence number, or unseen for a first
/// vote; and a vote without a new block has a fork choice to vote for.
pub open spec fn wire_vote_ok<V>(w: WireVote<V>, fork_choice: Option<u64>, st: State) -> bool {
    &&& (w.sender.0 as int) < w.panorama@.len()
    &&& (w.values is Some || fork_choice is Some)
    &&& match w.panorama@[w.sender.0 as int] {
        Observation::Correct(p) => {
            &&& w.seq_number > 0
            &&& st.has_vote(p)
            &&& st.vote_at(p).sender == w.sender
            &&& st.vote_at(p).seq_number == w.seq_number - 1
        },
        _ => w.seq_number == 0,
    }
}

impl Vote {
    /// Creates a stored vote from a wire vote, and returns the values if it
    /// held any; those must be stored as a block with the vote's hash. A vote
    /// with a new block votes for that block, any other for the fork choice.
    pub fn new<V>(wvote: WireVote<V>, fork_choice: Option<u64>, state: &State) -> (r: (
        Vote,
        Option<Vec<V>>,
    ))
        requires
            state.wf(),
            wire_vote_ok(wvote, fork_choice, *state),
        ensures
            r.0.panorama == wvote.panorama,
            r.0.seq_number == wvote.seq_number,
            r.0.sender == wvote.sender,
            r.0.block == if wvote.values is Some {
                wvote.hash
            } else {
                fork_choice->0
            },
            r.1 == wvote.values,
            skip_ok(*state, r.0),
            wvote.panorama@[wvote.sender.0 as int] matches Observation::Correct(p) ==> r.0.skip_idx@[0] == p,
            forall|i: int|
                0 < i < r.0.skip_idx@.len() ==> #[trigger] r.0.skip_idx@[i] == state.vote_at(
                    r.0.skip_idx@[i - 1],
                ).skip_idx@[i - 1],
    {
        let block = if wvote.values.is_some() {
            wvote.hash
        } else {
            fork_choice.unwrap()
        };
        let s = wvote.seq_number;
        let mut skip_idx: Vec<u64> = Vec::new();
        match wvote.panorama.get(wvote.sender).correct() {
            Some(hash) => {
                skip_idx.push(hash);
                let tz = s.trailing_zeros() as usize;
                proof {
                    axiom_u64_trailing_zeros(s);
                    assert((1u64 << 0u64) == 1u64) by (bit_vector);
                }
                let mut i: usize = 0;
                while i < tz
                    invariant
                        state.wf(),
                        s > 0,
                        tz == u64_trailing_zeros(s),
                        tz < 64,
                        i <= tz,
                        skip_idx@.len() == i + 1,
                        skip_idx@[0] == hash,
                        forall|k: int|
                            0 < k <= i ==> #[trigger] skip_idx@[k] == state.vote_at(skip_idx@[k - 1]).skip_idx@[k - 1],
                        forall|k: int|
                            0 <= k <= i ==> {
                                let h = #[trigger] skip_idx@[k];
                                &&& state.has_vote(h)
                                &&& state.vote_at(h).sender == wvote.sender
                                &&& state.vote_at(h).seq_number == s - (1u64 << (k as u64))
                            },
                    decreases tz - i,
                {
                    proof {
                        lemma_skip_step(s, i as u64);
                    }
                    let old_vote = state.vote(skip_idx[i]);
                    proof {
                        assert(old_vote.seq_number == s - (1u64 << (i as u64)));
                        assert(old_vote.skip_idx@.len() == i + 1);
                        let h2 = old_vote.skip_idx@[i as int];
                        assert(state.vote_at(h2).seq_number == old_vote.seq_number - (1u64 << (i as u64)));
                    }
                    skip_idx.push(old_vote.skip_idx[i]);
                    i = i + 1;
                }
            },
            None => {},
        }
        let vote = Vote {
            panorama: wvote.panorama,
            seq_number: s,
            sender: wvote.sender,
            block,
            skip_idx,
        };
        (vote, wvote.values)
    }
}

/// A vote as received from the network, before it is stored.
pub struct WireVote<V> {
    pub hash: u64,
    pub panorama: Panorama,
    pub seq_number: u64,
    pub sender: ValidatorIndex,
    /// The values of a new block, if this vote introduces one.
    pub values: Option<Vec<V>>,
}

/// The skip list of `v` has one entry per power of two dividing its sequence
/// number (none for a first vote), and entry `i` is the sender's stored vote
/// `1 << i` steps back.
pub open spec fn skip_ok(st: State, v: Vote) -> bool {
    if v.seq_number == 0 {
        v.skip_idx@.len() == 0
    } else {
        &&& v.skip_idx@.len() == u64_trailing_zeros(v.seq_number) + 1
        &&& forall|i: int|
            0 <= i < v.skip_idx@.len() ==> {
                let h = #[trigger] v.skip_idx@[i];
                &&& st.has_vote(h)
                &&& st.vote_at(h).sender == v.sender
                &&& st.vote_at(h).seq_number == v.seq_number - (1u64 << (i as u64))
            }
    }
}

/// A sound skip list stays sound when votes are added.
pub proof fn lemma_skip_ok_grow(pre: State, post: State, v: Vote)
    requires
        skip_ok(pre, v),
        forall|h: u64| pre.has_vote(h) ==> post.has_vote(h) && post.vote_at(h) == pre.vote_at(h),
    ensures
        skip_ok(post, v),
{
    if v.seq_number != 0 {
        assert forall|i: int| 0 <= i < v.skip_idx@.len() implies {
            let h = #[trigger] v.skip_idx@[i];
            &&& post.has_vote(h)
            &&& post.vote_at(h).sender == v.sender
            &&& post.vote_at(h).seq_number == v.seq_number - (1u64 << (i as u64))
        } by {
            assert(pre.has_vote(v.skip_idx@[i]));
        }
    }
}

/// For `i` below the number of trailing zeros of `s`, `s - 2^i` has exactly
/// `i` trailing zeros, and stepping back by `2^i` twice is stepping back by
/// `2^(i+1)`.
pub proof fn lemma_skip_step(s: u64, i: u64)
    requires
        s > 0,
        i < u64_trailing_zeros(s),
    ensures
        s >= (1u64 << vstd::prelude::add(i, 1)),
        (1u64 << i) < s,
        u64_trailing_zeros((s - (1u64 << i)) as u64) == i,
        s - (1u64 << i) - (1u64 << i) == s - (1u64 << vstd::prelude::add(i, 1)),
{
    axiom_u64_trailing_zeros(s);
    let t = u64_trailing_zeros(s) as u64;
    assert(t < 64);
    assert(s << vstd::prelude::sub(64, t) == 0);
    assert((s >> t) & 1u64 == 1u64);
    assert((s >> t) & 1u64 == 1u64 && i < t && t < 64 ==> s >= (1u64 << vstd::prelude::add(i, 1))) by (bit_vector);
    assert(i < 63 ==> (1u64 << vstd::prelude::add(i, 1)) == vstd::prelude::add(1u64 << i, 1u64 << i)) by (bit_vector);
    assert(i < 63 ==> (1u64 << i) < (1u64 << vstd::prelude::add(i, 1))) by (bit_vector);
    assert(i < 63 ==> (1u64 << i) <= 0x4000_0000_0000_0000u64) by (bit_vector);
    assert(i < 63);
    assert(vstd::prelude::add(1u64 << i, 1u64 << i) == (1u64 << i) + (1u64 << i));
    let x = vstd::prelude::sub(s, 1u64 << i);
    assert(x == s - (1u64 << i));
    assert(x == (s - (1u64 << i)) as u64);
    assert(s << vstd::prelude::sub(64, t) == 0 && i < t && t < 64 && s >= (1u64 << vstd::prelude::add(i, 1)) ==> (vstd::prelude::sub(s, 1u64 << i) >> i) & 1u64 == 1u64) by (bit_vector);
    assert(s << vstd::prelude::sub(64, t) == 0 && i < t && t < 64 && s >= (1u64 << vstd::prelude::add(i, 1)) ==> vstd::prelude::sub(s, 1u64 << i) << vstd::prelude::sub(64, i) == 0) by (bit_vector);
    axiom_u64_trailing_zeros(x);
    let tx = u64_trailing_zeros(x) as u64;
    assert((x >> i) & 1u64 == 1u64);
    assert(x << vstd::prelude::sub(64, i) == 0);
    assert(x != 0);
    assert(tx < 64);
    assert((x >> tx) & 1u64 == 1u64);
    if tx < i {
        assert(x << vstd::prelude::sub(64, i) == 0 && tx < i && i < 64 ==> (x >> tx) & 1u64 == 0u64) by (bit_vector);
        assert(false);
    } else if tx > i {
        assert((x >> i) & 1u64 == 0u64);
        assert(false);
    }
    assert(tx == i);
    assert(u64_trailing_zeros(x) == i);
}

} // verus!
