//! Fork-choice core of a Highway-style consensus protocol: weighted vote
//! tallies per block height, the finality rule that picks the deepest block
//! backed by a strict majority, and the construction of votes with their
//! skip-list index into the sender's earlier votes.
pub mod entries;
pub mod state;
pub mod tallies;
pub mod vote;
