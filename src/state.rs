//! The protocol state as the fork-choice core consumes it: an append-only
//! store of blocks, each with a height and a parent.
use vstd::prelude::*;

use crate::vote::{skip_ok, Vote};

verus! {

/// A block of the chain. Only its hash, height and parent matter here.
#[derive(Clone, Copy, Debug, PartialEq, Eq)]
pub struct Block {
    pub hash: u64,
    pub height: u64,
    /// `None` exactly for the genesis block, at height 0.
    pub parent: Option<u64>,
}

/// The store of blocks, and of votes by their hashes.
pub struct State {
    pub blocks: Vec<Block>,
    pub votes: Vec<(u64, Vote)>,
}

impl State {
    /// Whether a block with hash `h` is stored.
    pub open spec fn has_block(&self, h: u64) -> bool {
        exists|i: int| 0 <= i < self.blocks@.len() && #[trigger] self.blocks@[i].hash == h
    }

    /// The stored block with hash `h`.
    pub open spec fn block_at(&self, h: u64) -> Block {
        self.blocks@[choose|i: int| 0 <= i < self.blocks@.len() && #[trigger] self.blocks@[i].hash == h]
    }

    pub open spec fn height_of(&self, h: u64) -> u64 {
        self.block_at(h).height
    }

    /// The parent of block `h` (meaningful above height 0 only).
    pub open spec fn parent_of(&self, h: u64) -> u64 {
        self.block_at(h).parent->0
    }

    /// The block reached from `b` by following `k` parent links.
    pub open spec fn walk(&self, b: u64, k: nat) -> Option<u64>
        decreases k,
    {
        if k == 0 {
            Some(b)
        } else {
            match self.block_at(b).parent {
                Some(p) => self.walk(p, (k - 1) as nat),
                None => None,
            }
        }
    }

    /// The ancestor of `b` at height `height`, or `None` if `b` lies below it.
    pub open spec fn ancestor(&self, b: u64, height: u64) -> Option<u64> {
        if self.height_of(b) < height {
            None
        } else {
            self.walk(b, (self.height_of(b) - height) as nat)
        }
    }

    /// Whether a vote with hash `h` is stored.
    pub open spec fn has_vote(&self, h: u64) -> bool {
        exists|i: int| 0 <= i < self.votes@.len() && #[trigger] self.votes@[i].0 == h
    }

    /// The stored vote with hash `h`.
    pub open spec fn vote_at(&self, h: u64) -> Vote {
        self.votes@[choose|i: int| 0 <= i < self.votes@.len() && #[trigger] self.votes@[i].0 == h].1
    }

    /// Vote hashes are unique, and each stored vote's skip list is sound.
    pub open spec fn votes_wf(&self) -> bool {
        &&& forall|i: int, j: int|
            0 <= i < j < self.votes@.len() ==> #[trigger] self.votes@[i].0 != #[trigger] self.votes@[j].0
        &&& forall|i: int| 0 <= i < self.votes@.len() ==> skip_ok(*self, #[trigger] self.votes@[i].1)
    }

    pub open spec fn wf(&self) -> bool {
        self.blocks_wf() && self.votes_wf()
    }

    /// Hashes are unique, and each block other than genesis sits one level
    /// above a stored parent.
    pub open spec fn blocks_wf(&self) -> bool {
        &&& forall|i: int, j: int|
            0 <= i < j < self.blocks@.len() ==> #[trigger] self.blocks@[i].hash
                != #[trigger] self.blocks@[j].hash
        &&& forall|i: int|
            0 <= i < self.blocks@.len() ==> {
                let b = #[trigger] self.blocks@[i];
                match b.parent {
                    None => b.height == 0,
                    Some(p) => exists|j: int|
                        0 <= j < self.blocks@.len() && #[trigger] self.blocks@[j].hash == p
                            && self.blocks@[j].height + 1 == b.height,
                }
            }
    }

    /// An empty state.
    pub fn new() -> (r: State)
        ensures
            r.wf(),
            r.blocks@.len() == 0,
    {
        State { blocks: Vec::new(), votes: Vec::new() }
    }

    /// Index of the block with hash `h`, if stored.
    fn block_index(&self, h: u64) -> (r: Option<usize>)
        ensures
            match r {
                Some(i) => i < self.blocks@.len() && self.blocks@[i as int].hash == h,
                None => !self.has_block(h),
            },
    {
        let mut i: usize = 0;
        while i < self.blocks.len()
            invariant
                i <= self.blocks@.len(),
                forall|j: int| 0 <= j < i ==> self.blocks@[j].hash != h,
            decreases self.blocks@.len() - i,
        {
            if self.blocks[i].hash == h {
                return Some(i);
            }
            i = i + 1;
        }
        None
    }

    /// The block at position `i` is the one its hash names.
    pub proof fn lemma_block_at(&self, i: int)
        requires
            self.blocks_wf(),
            0 <= i < self.blocks@.len(),
        ensures
            self.has_block(self.blocks@[i].hash),
            self.block_at(self.blocks@[i].hash) == self.blocks@[i],
    {
        let h = self.blocks@[i].hash;
        assert(self.has_block(h));
        let j = choose|j: int| 0 <= j < self.blocks@.len() && #[trigger] self.blocks@[j].hash == h;
        if j != i {
            if j < i {
                assert(self.blocks@[j].hash != self.blocks@[i].hash);
            } else {
                assert(self.blocks@[i].hash != self.blocks@[j].hash);
            }
        }
    }

    /// Facts about a stored block that follow from well-formedness.
    pub proof fn lemma_block(&self, h: u64)
        requires
            self.wf(),
            self.has_block(h),
        ensures
            self.block_at(h).hash == h,
            self.block_at(h).parent is None <==> self.height_of(h) == 0,
            self.height_of(h) > 0 ==> self.has_block(self.parent_of(h)) && self.height_of(
                self.parent_of(h),
            ) + 1 == self.height_of(h),
    {
        let i = choose|i: int| 0 <= i < self.blocks@.len() && #[trigger] self.blocks@[i].hash == h;
        self.lemma_block_at(i);
        if let Some(p) = self.blocks@[i].parent {
            let j = choose|j: int|
                0 <= j < self.blocks@.len() && #[trigger] self.blocks@[j].hash == p
                    && self.blocks@[j].height + 1 == self.blocks@[i].height;
            self.lemma_block_at(j);
        }
    }

    /// Returns the block with hash `h`, which must be stored.
    pub fn block(&self, h: u64) -> (r: &Block)
        requires
            self.wf(),
            self.has_block(h),
        ensures
            *r == self.block_at(h),
    {
        let i = self.block_index(h).unwrap();
        proof {
            self.lemma_block_at(i as int);
        }
        &self.blocks[i]
    }

    /// Returns the hash of the ancestor of `b` at height `height`, or `None`
    /// if `height` is above `b`.
    pub fn find_ancestor(&self, b: u64, height: u64) -> (r: Option<u64>)
        requires
            self.wf(),
            self.has_block(b),
        ensures
            r == self.ancestor(b, height),
            r is Some ==> self.has_block(r->0) && self.height_of(r->0) == height,
    {
        let blk = self.block(b);
        if blk.height < height {
            return None;
        }
        let mut cur: u64 = b;
        let mut cur_h: u64 = blk.height;
        while cur_h > height
            invariant
                self.wf(),
                self.has_block(cur),
                cur_h == self.height_of(cur),
                cur_h >= height,
                self.height_of(b) >= height,
                self.ancestor(b, height) == self.walk(cur, (cur_h - height) as nat),
            decreases cur_h,
        {
            proof {
                self.lemma_block(cur);
            }
            let blk = self.block(cur);
            let p = blk.parent.unwrap();
            cur = p;
            cur_h = cur_h - 1;
        }
        proof {
            self.lemma_block(cur);
        }
        Some(cur)
    }

    proof fn lemma_push(pre: State, post: State)
        requires
            pre.blocks_wf(),
            post.blocks@.len() == pre.blocks@.len() + 1,
            post.blocks@.drop_last() == pre.blocks@,
            !pre.has_block(post.blocks@.last().hash),
            match post.blocks@.last().parent {
                None => post.blocks@.last().height == 0,
                Some(p) => pre.has_block(p) && pre.height_of(p) + 1 == post.blocks@.last().height,
            },
        ensures
            post.blocks_wf(),
            post.has_block(post.blocks@.last().hash),
            post.block_at(post.blocks@.last().hash) == post.blocks@.last(),
            forall|h: u64| pre.has_block(h) ==> post.has_block(h) && post.block_at(h) == pre.block_at(h),
    {
        let n = pre.blocks@.len() as int;
        assert forall|i: int| 0 <= i < n implies post.blocks@[i] == pre.blocks@[i] by {
            assert(post.blocks@.drop_last()[i] == post.blocks@[i]);
        }
        assert forall|a: int, c: int| 0 <= a < c < post.blocks@.len() implies #[trigger] post.blocks@[a].hash
            != #[trigger] post.blocks@[c].hash by {
            if c == n {
                assert(pre.blocks@[a].hash == post.blocks@[a].hash);
            } else {
                assert(pre.blocks@[a].hash != pre.blocks@[c].hash);
            }
        }
        assert(post.blocks@[n].hash == post.blocks@.last().hash);
        assert forall|h: u64| pre.has_block(h) implies post.has_block(h) && post.block_at(h) == pre.block_at(h) by {
            let i = choose|i: int| 0 <= i < pre.blocks@.len() && #[trigger] pre.blocks@[i].hash == h;
            pre.lemma_block_at(i);
            assert(post.blocks@[i].hash == h);
            post.lemma_block_at(i);
        }
        post.lemma_block_at(n);
        if let Some(p) = post.blocks@.last().parent {
            let j = choose|j: int| 0 <= j < pre.blocks@.len() && #[trigger] pre.blocks@[j].hash == p;
            pre.lemma_block_at(j);
            assert(post.blocks@[j] == pre.blocks@[j]);
        }
        assert forall|i: int| 0 <= i < post.blocks@.len() implies {
            let b = #[trigger] post.blocks@[i];
            match b.parent {
                None => b.height == 0,
                Some(p) => exists|j: int|
                    0 <= j < post.blocks@.len() && #[trigger] post.blocks@[j].hash == p
                        && post.blocks@[j].height + 1 == b.height,
            }
        } by {
            if i < n {
                let b = pre.blocks@[i];
                assert(post.blocks@[i] == b);
                if let Some(p) = b.parent {
                    let j = choose|j: int|
                        0 <= j < pre.blocks@.len() && #[trigger] pre.blocks@[j].hash == p
                            && pre.blocks@[j].height + 1 == b.height;
                    assert(post.blocks@[j] == pre.blocks@[j]);
                }
            }
        }
    }

    /// Stores a new block on top of `parent`, or a genesis block if `parent`
    /// is `None`.
    pub fn add_block(&mut self, hash: u64, parent: Option<u64>)
        requires
            old(self).wf(),
            !old(self).has_block(hash),
            old(self).blocks@.len() < usize::MAX,
            parent matches Some(p) ==> old(self).has_block(p) && old(self).height_of(p) < u64::MAX,
        ensures
            final(self).wf(),
            final(self).has_block(hash),
            final(self).votes == old(self).votes,
            final(self).block_at(hash) == final(self).blocks@.last(),
            forall|h: u64|
                old(self).has_block(h) ==> final(self).has_block(h) && final(self).block_at(h) == old(
                    self,
                ).block_at(h),
            final(self).blocks@ == old(self).blocks@.push(
                Block {
                    hash,
                    height: match parent {
                        Some(p) => (old(self).height_of(p) + 1) as u64,
                        None => 0,
                    },
                    parent,
                },
            ),
    {
        let height: u64 = match parent {
            Some(p) => self.block(p).height + 1,
            None => 0,
        };
        let ghost pre = *self;
        self.blocks.push(Block { hash, height, parent });
        proof {
            assert(self.blocks@.drop_last() =~= pre.blocks@);
            State::lemma_push(pre, *self);
        }
    }

    proof fn lemma_vote_at(&self, i: int)
        requires
            self.votes_wf(),
            0 <= i < self.votes@.len(),
        ensures
            self.has_vote(self.votes@[i].0),
            self.vote_at(self.votes@[i].0) == self.votes@[i].1,
    {
        let h = self.votes@[i].0;
        assert(self.has_vote(h));
        let j = choose|j: int| 0 <= j < self.votes@.len() && #[trigger] self.votes@[j].0 == h;
        if j != i {
            if j < i {
                assert(self.votes@[j].0 != self.votes@[i].0);
            } else {
                assert(self.votes@[i].0 != self.votes@[j].0);
            }
        }
    }

    /// Returns the vote with hash `h`, which must be stored.
    pub fn vote(&self, h: u64) -> (r: &Vote)
        requires
            self.wf(),
            self.has_vote(h),
        ensures
            *r == self.vote_at(h),
            skip_ok(*self, *r),
    {
        let mut i: usize = 0;
        while i < self.votes.len() && self.votes[i].0 != h
            invariant
                i <= self.votes@.len(),
                forall|j: int| 0 <= j < i ==> self.votes@[j].0 != h,
            decreases self.votes@.len() - i,
        {
            i = i + 1;
        }
        proof {
            if i == self.votes@.len() {
                let j = choose|j: int| 0 <= j < self.votes@.len() && #[trigger] self.votes@[j].0 == h;
                assert(self.votes@[j].0 == h);
            }
            self.lemma_vote_at(i as int);
        }
        &self.votes[i].1
    }

    /// Stores a vote under a new hash.
    pub fn add_vote(&mut self, hash: u64, vote: Vote)
        requires
            old(self).wf(),
            !old(self).has_vote(hash),
            skip_ok(*old(self), vote),
        ensures
            final(self).wf(),
            final(self).has_vote(hash),
            final(self).vote_at(hash) == vote,
            final(self).blocks == old(self).blocks,
            forall|h: u64| old(self).has_vote(h) ==> final(self).has_vote(h) && final(self).vote_at(h) == old(self).vote_at(h),
    {
        let ghost pre = *self;
        self.votes.push((hash, vote));
        proof {
            let post = *self;
            let n = pre.votes@.len() as int;
            assert forall|i: int| 0 <= i < n implies post.votes@[i] == pre.votes@[i] by {}
            assert forall|a: int, c: int| 0 <= a < c < post.votes@.len() implies #[trigger] post.votes@[a].0
                != #[trigger] post.votes@[c].0 by {
                if c == n {
                    assert(pre.votes@[a].0 == post.votes@[a].0);
                } else {
                    assert(pre.votes@[a].0 != pre.votes@[c].0);
                }
            }
            assert forall|h: u64| pre.has_vote(h) implies post.has_vote(h) && post.vote_at(h) == pre.vote_at(h) by {
                let i = choose|i: int| 0 <= i < pre.votes@.len() && #[trigger] pre.votes@[i].0 == h;
                pre.lemma_vote_at(i);
                assert(post.votes@[i].0 == h);
                post.lemma_vote_at(i);
            }
            assert(post.votes@[n].0 == hash);
            post.lemma_vote_at(n);
            crate::vote::lemma_skip_ok_grow(pre, post, vote);
            assert forall|i: int| 0 <= i < post.votes@.len() implies skip_ok(post, #[trigger] post.votes@[i].1) by {
                if i < n {
                    assert(skip_ok(pre, pre.votes@[i].1));
                    crate::vote::lemma_skip_ok_grow(pre, post, pre.votes@[i].1);
                }
            }
        }
    }
}

} // verus!
