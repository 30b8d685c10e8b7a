//! Weighted vote tallies per block height, and the finality rule.
use vstd::prelude::*;

use crate::entries::{
    keys_distinct,
    sum_weights,
    top,
    index_of,
    added,
    add_all,
    lemma_index_of,
    lemma_sum_update,
    lemma_added,
    lemma_top,
    lemma_top_added,
    lemma_add_all,
    parent_entries,
    descends,
    kept,
    all_have_parents,
    all_stored,
    all_at_height,
    lemma_parent_entries_sum,
    lemma_filter,
    lemma_add_all_distinct,
};
use crate::state::State;

verus! {

/// A tally of votes at one height: the weight each block received. Never
/// empty.
pub struct Tally {
    /// The greatest `(weight, hash)` pair: the block with the highest weight,
    /// and the highest hash among those in a tie.
    max: (u64, u64),
    /// `(hash, weight)` for each block, each hash once, in the order blocks
    /// first received a vote. A `Vec` with distinct keys (an invariant of
    /// `wf`) rather than a map, so that sums and the maximum are stated as
    /// plain recursions over the entries.
    votes: Vec<(u64, u64)>,
}

impl View for Tally {
    type V = Seq<(u64, u64)>;

    closed spec fn view(&self) -> Seq<(u64, u64)> {
        self.votes@
    }
}

impl Tally {
    /// Non-empty, hashes distinct, total weight within `u64`, and the cached
    /// maximum up to date.
    pub closed spec fn wf(&self) -> bool {
        &&& self.votes@.len() > 0
        &&& keys_distinct(self.votes@)
        &&& sum_weights(self.votes@) <= u64::MAX
        &&& self.max == top(self.votes@)
    }

    /// Returns a new tally with a single entry.
    pub fn new(bhash: u64, w: u64) -> (r: Tally)
        ensures
            r.wf(),
            r@ == seq![(bhash, w)],
    {
        let mut votes: Vec<(u64, u64)> = Vec::new();
        votes.push((bhash, w));
        proof {
            assert(votes@.drop_last() =~= Seq::<(u64, u64)>::empty());
            reveal_with_fuel(sum_weights, 2);
            assert(sum_weights(votes@) == w);
        }
        Tally { max: (w, bhash), votes }
    }

    /// Adds a vote for a block, possibly updating the current maximum.
    pub fn add(&mut self, bhash: u64, weight: u64)
        requires
            old(self).wf(),
            sum_weights(old(self)@) + weight <= u64::MAX,
        ensures
            final(self).wf(),
            final(self)@ == added(old(self)@, bhash, weight),
    {
        let ghost pre = self.votes@;
        let mut i: usize = 0;
        while i < self.votes.len() && self.votes[i].0 != bhash
            invariant
                i <= self.votes@.len(),
                self.votes@ == pre,
                self.max == top(pre),
                pre.len() > 0,
                keys_distinct(pre),
                sum_weights(pre) + weight <= u64::MAX,
                forall|j: int| 0 <= j < i ==> self.votes@[j].0 != bhash,
            decreases self.votes@.len() - i,
        {
            i = i + 1;
        }
        proof {
            lemma_index_of(pre, bhash);
            lemma_added(pre, bhash, weight);
            lemma_top_added(pre, bhash, weight);
        }
        let nw: u64;
        if i < self.votes.len() {
            proof {
                lemma_sum_update(pre, i as int, (bhash, 0));
                assert(index_of(pre, bhash) == i);
            }
            nw = self.votes[i].1 + weight;
            self.votes.set(i, (bhash, nw));
        } else {
            proof {
                if index_of(pre, bhash) >= 0 {
                    assert(pre[index_of(pre, bhash)].0 == bhash);
                }
            }
            nw = weight;
            self.votes.push((bhash, weight));
        }
        proof {
            let t = added(pre, bhash, weight);
            assert(self.votes@ =~= t);
            lemma_index_of(t, bhash);
            assert(t[i as int].0 == bhash);
            assert(index_of(t, bhash) == i);
            assert(t[index_of(t, bhash)].1 == nw);
        }
        let cand = (nw, bhash);
        if self.max.0 < nw || (self.max.0 == nw && self.max.1 <= bhash) {
            self.max = cand;
        }
    }

    /// Adds each entry in turn.
    pub fn extend(&mut self, entries: &Vec<(u64, u64)>)
        requires
            old(self).wf(),
            sum_weights(old(self)@) + sum_weights(entries@) <= u64::MAX,
        ensures
            final(self).wf(),
            final(self)@ == add_all(old(self)@, entries@),
    {
        let ghost pre = self@;
        let mut i: usize = 0;
        while i < entries.len()
            invariant
                i <= entries@.len(),
                self.wf(),
                keys_distinct(pre),
                sum_weights(pre) + sum_weights(entries@) <= u64::MAX,
                self@ == add_all(pre, entries@.take(i as int)),
            decreases entries@.len() - i,
        {
            proof {
                let e = entries@;
                assert(e.take(i as int + 1).drop_last() =~= e.take(i as int));
                lemma_prefix_sum(e, i as int);
                lemma_add_all(pre, e.take(i as int));
            }
            let (b, w) = entries[i];
            self.add(b, w);
            i = i + 1;
        }
        proof {
            assert(entries@.take(i as int) =~= entries@);
        }
    }

    /// Creates a tally from a list of votes; `None` if the list is empty.
    pub fn try_from_iter(entries: Vec<(u64, u64)>) -> (r: Option<Tally>)
        requires
            sum_weights(entries@) <= u64::MAX,
        ensures
            r is None <==> entries@.len() == 0,
            r matches Some(t) ==> t.wf() && t@ == add_all(Seq::empty(), entries@),
    {
        if entries.len() == 0 {
            return None;
        }
        let mut t = Tally::new(entries[0].0, entries[0].1);
        let ghost first = seq![entries@[0]];
        let mut i: usize = 1;
        proof {
            let e = entries@;
            assert(e.take(1).drop_last() =~= Seq::<(u64, u64)>::empty());
            assert(e.take(1) =~= first);
            assert(e.take(1).last() == e[0]);
            assert(index_of(Seq::<(u64, u64)>::empty(), e[0].0) == -1);
            assert(added(Seq::empty(), e[0].0, e[0].1) =~= first);
            reveal_with_fuel(add_all, 2);
            assert(add_all(Seq::empty(), e.take(1)) =~= first);
        }
        while i < entries.len()
            invariant
                1 <= i <= entries@.len(),
                t.wf(),
                sum_weights(entries@) <= u64::MAX,
                t@ == add_all(Seq::empty(), entries@.take(i as int)),
            decreases entries@.len() - i,
        {
            proof {
                let e = entries@;
                assert(e.take(i as int + 1).drop_last() =~= e.take(i as int));
                lemma_prefix_sum(e, i as int);
                lemma_add_all(Seq::empty(), e.take(i as int));
            }
            let (b, w) = entries[i];
            t.add(b, w);
            i = i + 1;
        }
        proof {
            assert(entries@.take(i as int) =~= entries@);
        }
        Some(t)
    }

    /// The `(hash, weight)` entries of this tally.
    pub fn entries(&self) -> (r: Vec<(u64, u64)>)
        ensures
            r@ == self@,
    {
        let mut out: Vec<(u64, u64)> = Vec::new();
        let mut i: usize = 0;
        while i < self.votes.len()
            invariant
                i <= self.votes@.len(),
                out@ == self.votes@.take(i as int),
            decreases self.votes@.len() - i,
        {
            out.push(self.votes[i]);
            i = i + 1;
            proof {
                assert(out@ =~= self.votes@.take(i as int));
            }
        }
        proof {
            assert(out@ =~= self.votes@);
        }
        out
    }

    /// A copy of this tally, with its contents known to be the same.
    fn copy(&self) -> (r: Tally)
        ensures
            r@ == self@,
            self.wf() ==> r.wf(),
    {
        let mut votes: Vec<(u64, u64)> = Vec::new();
        let mut i: usize = 0;
        while i < self.votes.len()
            invariant
                i <= self.votes@.len(),
                votes@ == self.votes@.take(i as int),
            decreases self.votes@.len() - i,
        {
            votes.push(self.votes[i]);
            i = i + 1;
            proof {
                assert(votes@ =~= self.votes@.take(i as int));
            }
        }
        proof {
            assert(votes@ =~= self.votes@);
        }
        Tally { max: self.max, votes }
    }

    /// Returns a new tally with the same votes, one level lower: a vote for a
    /// block counts as a vote for that block's parent.
    pub fn parents(&self, state: &State) -> (r: Tally)
        requires
            self.wf(),
            state.wf(),
            all_have_parents(*state, self@),
        ensures
            r.wf(),
            r@ == add_all(Seq::empty(), parent_entries(*state, self@)),
    {
        let ghost pe = parent_entries(*state, self@);
        let mut out: Vec<(u64, u64)> = Vec::new();
        let mut i: usize = 0;
        while i < self.votes.len()
            invariant
                self.wf(),
                state.wf(),
                all_have_parents(*state, self@),
                pe == parent_entries(*state, self@),
                i <= self.votes@.len(),
                out@ == pe.take(i as int),
            decreases self.votes@.len() - i,
        {
            let (h, w) = self.votes[i];
            proof {
                assert(state.has_block(self@[i as int].0));
                state.lemma_block(h);
            }
            let p = state.block(h).parent.unwrap();
            out.push((p, w));
            i = i + 1;
            proof {
                assert(out@ =~= pe.take(i as int));
            }
        }
        proof {
            lemma_parent_entries_sum(*state, self@);
            assert(out@ =~= pe);
        }
        Tally::try_from_iter(out).unwrap()
    }

    /// Returns a tally of only the votes for descendants of `bhash`, which
    /// sits at `height`; `None` if there are none.
    pub fn filter(self, height: u64, bhash: u64, state: &State) -> (r: Option<Tally>)
        requires
            self.wf(),
            state.wf(),
            all_stored(*state, self@),
        ensures
            r is None <==> kept(*state, self@, height, bhash).len() == 0,
            r matches Some(t) ==> t.wf() && t@ == kept(*state, self@, height, bhash),
    {
        let ghost s = self@;
        let ghost pred = |e: (u64, u64)| descends(*state, height, bhash, e.0);
        let mut out: Vec<(u64, u64)> = Vec::new();
        let mut i: usize = 0;
        while i < self.votes.len()
            invariant
                self.wf(),
                state.wf(),
                all_stored(*state, s),
                s == self@,
                pred == (|e: (u64, u64)| descends(*state, height, bhash, e.0)),
                i <= s.len(),
                out@ == s.take(i as int).filter(pred),
            decreases s.len() - i,
        {
            let (h, w) = self.votes[i];
            proof {
                assert(state.has_block(s[i as int].0));
                reveal(Seq::filter);
                assert(s.take(i as int + 1).drop_last() =~= s.take(i as int));
                assert(s.take(i as int + 1).last() == s[i as int]);
            }
            if state.find_ancestor(h, height) == Some(bhash) {
                out.push((h, w));
            }
            i = i + 1;
        }
        proof {
            assert(s.take(i as int) =~= s);
            lemma_filter(s, pred);
            lemma_add_all_distinct(out@);
        }
        Tally::try_from_iter(out)
    }

    /// Returns the total weight of the votes in this tally.
    pub fn weight(&self) -> (r: u64)
        requires
            self.wf(),
        ensures
            r == sum_weights(self@),
    {
        let mut i: usize = 0;
        let mut sum: u64 = 0;
        while i < self.votes.len()
            invariant
                self.wf(),
                i <= self.votes@.len(),
                sum == sum_weights(self.votes@.take(i as int)),
            decreases self.votes@.len() - i,
        {
            proof {
                lemma_prefix_sum(self.votes@, i as int);
                assert(self.votes@.take(i as int + 1).drop_last() =~= self.votes@.take(i as int));
            }
            sum = sum + self.votes[i].1;
            i = i + 1;
        }
        proof {
            assert(self.votes@.take(i as int) =~= self.votes@);
        }
        sum
    }

    /// Returns the maximum weight a single block received.
    pub fn max_w(&self) -> (r: u64)
        requires
            self.wf(),
        ensures
            r == top(self@).0,
    {
        self.max.0
    }

    /// Returns the block with the most weight; the highest hash in a tie.
    pub fn max_bhash(&self) -> (r: u64)
        requires
            self.wf(),
        ensures
            r == top(self@).1,
    {
        self.max.1
    }
}

/// A prefix weighs no more than the whole, and one entry more adds its weight.
pub proof fn lemma_prefix_sum(s: Seq<(u64, u64)>, i: int)
    requires
        0 <= i < s.len(),
    ensures
        sum_weights(s.take(i + 1)) == sum_weights(s.take(i)) + s[i].1,
        sum_weights(s.take(i + 1)) <= sum_weights(s),
    decreases s.len(),
{
    assert(s.take(i + 1).drop_last() =~= s.take(i));
    if i + 1 < s.len() {
        assert(s.drop_last().take(i + 1) =~= s.take(i + 1));
        lemma_prefix_sum(s.drop_last(), i);
    } else {
        assert(s.take(i + 1) =~= s);
    }
}

/// Heights and their tallies' entries.
pub type TalliesView = Seq<(u64, Seq<(u64, u64)>)>;

/// Whether there is a tally at height `g`.
pub open spec fn has_height(v: TalliesView, g: u64) -> bool {
    exists|i: int| 0 <= i < v.len() && v[i].0 == g
}

/// No height occurs twice.
pub open spec fn heights_distinct(v: TalliesView) -> bool {
    forall|i: int, j: int| 0 <= i < j < v.len() ==> #[trigger] v[i].0 != #[trigger] v[j].0
}

/// The entries of the tally at height `g`; empty if there is none.
pub open spec fn tally_at(v: TalliesView, g: u64) -> Seq<(u64, u64)>
    decreases v.len(),
{
    if v.len() == 0 {
        Seq::empty()
    } else if v.last().0 == g {
        v.last().1
    } else {
        tally_at(v.drop_last(), g)
    }
}

/// Sum of the weights of all tallies.
pub open spec fn total_weight(v: TalliesView) -> nat
    decreases v.len(),
{
    if v.len() == 0 {
        0
    } else {
        total_weight(v.drop_last()) + sum_weights(v.last().1)
    }
}

/// Sum of the weights of the tallies at height `g` or above.
pub open spec fn total_above(v: TalliesView, g: int) -> nat
    decreases v.len(),
{
    if v.len() == 0 {
        0
    } else {
        total_above(v.drop_last(), g) + if v.last().0 >= g {
            sum_weights(v.last().1)
        } else {
            0
        }
    }
}

/// The greatest height present (0 if none).
pub open spec fn max_height(v: TalliesView) -> u64
    decreases v.len(),
{
    if v.len() == 0 {
        0
    } else if v.len() == 1 || max_height(v.drop_last()) <= v.last().0 {
        v.last().0
    } else {
        max_height(v.drop_last())
    }
}

/// The tally one level below `prev`, with the direct votes at that level:
/// the entries `find_decided` examines at height `g`.
pub open spec fn level(v: TalliesView, st: State, prev: Seq<(u64, u64)>, g: u64) -> Seq<(u64, u64)> {
    add_all(add_all(Seq::empty(), parent_entries(st, prev)), tally_at(v, g))
}

/// The finality rule, from level `h` down: `prev` holds the votes above
/// `h - 1` pushed down to `h`, and `total` is the weight of all votes.
pub open spec fn decide(v: TalliesView, st: State, total: nat, h: nat, prev: Seq<(u64, u64)>) -> (
    u64,
    u64,
)
    decreases h,
{
    if h == 0 {
        (0, top(prev).1)
    } else {
        let g = (h - 1) as u64;
        let ht = level(v, st, prev, g);
        if top(ht).0 * 2 > total {
            let f = kept(st, prev, g, top(ht).1);
            if f.len() > 0 {
                ((g + 1) as u64, top(f).1)
            } else {
                (g, top(ht).1)
            }
        } else {
            decide(v, st, total, (h - 1) as nat, ht)
        }
    }
}

/// The decided block: height and hash, or `None` without tallies.
pub open spec fn decided(v: TalliesView, st: State) -> Option<(u64, u64)> {
    if v.len() == 0 {
        None
    } else {
        let m = max_height(v);
        Some(decide(v, st, total_weight(v), m as nat, tally_at(v, m)))
    }
}

/// The tallies above `height` cut down to the sub-tree of `bhash`, dropping
/// those left empty.
pub open spec fn filtered(v: TalliesView, st: State, height: u64, bhash: u64) -> TalliesView
    decreases v.len(),
{
    if v.len() == 0 {
        v
    } else {
        let r = filtered(v.drop_last(), st, height, bhash);
        let (h, t) = v.last();
        if h > height && kept(st, t, height, bhash).len() > 0 {
            r.push((h, kept(st, t, height, bhash)))
        } else {
            r
        }
    }
}

pub proof fn lemma_tally_at(v: TalliesView, g: u64)
    ensures
        (forall|i: int| 0 <= i < v.len() ==> v[i].0 != g) ==> tally_at(v, g) == Seq::<(u64, u64)>::empty(),
        heights_distinct(v) ==> forall|i: int| 0 <= i < v.len() && v[i].0 == g ==> tally_at(v, g) == v[i].1,
        (exists|i: int| 0 <= i < v.len() && v[i].0 == g) || tally_at(v, g).len() == 0,
    decreases v.len(),
{
    if v.len() > 0 {
        let d = v.drop_last();
        lemma_tally_at(d, g);
        assert forall|i: int| 0 <= i < d.len() implies d[i] == v[i] by {}
        if heights_distinct(v) {
            assert(heights_distinct(d));
        }
        if tally_at(v, g).len() != 0 && v.last().0 != g {
            let i = choose|i: int| 0 <= i < d.len() && d[i].0 == g;
            assert(v[i].0 == g);
        }
    }
}

pub proof fn lemma_total_update(v: TalliesView, i: int, x: (u64, Seq<(u64, u64)>))
    requires
        0 <= i < v.len(),
    ensures
        total_weight(v.update(i, x)) == total_weight(v) - sum_weights(v[i].1) + sum_weights(x.1),
        sum_weights(v[i].1) <= total_weight(v),
    decreases v.len(),
{
    let t = v.update(i, x);
    if i == v.len() - 1 {
        assert(t.drop_last() =~= v.drop_last());
    } else {
        assert(t.drop_last() =~= v.drop_last().update(i, x));
        lemma_total_update(v.drop_last(), i, x);
    }
}

pub proof fn lemma_total_above(v: TalliesView, g: int)
    requires
        heights_distinct(v),
    ensures
        total_above(v, g) == total_above(v, g + 1) + sum_weights(tally_at(v, g as u64)) || g < 0 || g
            > u64::MAX,
        total_above(v, g) <= total_weight(v),
        (forall|i: int| 0 <= i < v.len() ==> v[i].0 < g) ==> total_above(v, g) == 0,
    decreases v.len(),
{
    if v.len() > 0 {
        let d = v.drop_last();
        assert(heights_distinct(d));
        lemma_total_above(d, g);
        assert forall|i: int| 0 <= i < d.len() implies d[i] == v[i] by {}
        if 0 <= g <= u64::MAX && v.last().0 == g {
            lemma_tally_at(d, g as u64);
            assert forall|i: int| 0 <= i < d.len() implies d[i].0 != g by {
                assert(v[i].0 != v[v.len() - 1].0);
            }
        }
    }
}

pub proof fn lemma_max_height(v: TalliesView)
    requires
        v.len() > 0,
    ensures
        exists|i: int| 0 <= i < v.len() && v[i].0 == max_height(v),
        forall|i: int| 0 <= i < v.len() ==> v[i].0 <= max_height(v),
    decreases v.len(),
{
    if v.len() > 1 {
        let d = v.drop_last();
        lemma_max_height(d);
        assert forall|i: int| 0 <= i < d.len() implies d[i] == v[i] by {}
        let k = choose|k: int| 0 <= k < d.len() && d[k].0 == max_height(d);
        assert(v[k].0 == max_height(d));
    } else {
        assert(v[0].0 == max_height(v));
    }
}

pub proof fn lemma_total_prefix(v: TalliesView, i: int)
    requires
        0 <= i < v.len(),
    ensures
        total_weight(v.take(i + 1)) == total_weight(v.take(i)) + sum_weights(v[i].1),
        total_weight(v.take(i + 1)) <= total_weight(v),
    decreases v.len(),
{
    assert(v.take(i + 1).drop_last() =~= v.take(i));
    if i + 1 < v.len() {
        assert(v.drop_last().take(i + 1) =~= v.take(i + 1));
        lemma_total_prefix(v.drop_last(), i);
    } else {
        assert(v.take(i + 1) =~= v);
    }
}

/// The `(hash, weight)` votes among `(height, hash, weight)` triples that are
/// at height `g`, in order.
pub open spec fn votes_at(s: Seq<(u64, u64, u64)>, g: u64) -> Seq<(u64, u64)>
    decreases s.len(),
{
    if s.len() == 0 {
        Seq::empty()
    } else if s.last().0 == g {
        votes_at(s.drop_last(), g).push((s.last().1, s.last().2))
    } else {
        votes_at(s.drop_last(), g)
    }
}

/// Sum of the weights of `(height, hash, weight)` triples.
pub open spec fn triple_weight(s: Seq<(u64, u64, u64)>) -> nat
    decreases s.len(),
{
    if s.len() == 0 {
        0
    } else {
        triple_weight(s.drop_last()) + s.last().2 as nat
    }
}

/// Every `(height, hash, weight)` triple names a stored block at that height.
pub open spec fn triples_at_heights(st: State, s: Seq<(u64, u64, u64)>) -> bool {
    forall|i: int| 0 <= i < s.len() ==> st.has_block(#[trigger] s[i].1) && st.height_of(s[i].1) == s[i].0
}

pub proof fn lemma_votes_at_heights(s: Seq<(u64, u64, u64)>, st: State, g: u64)
    requires
        triples_at_heights(st, s),
    ensures
        all_at_height(st, votes_at(s, g), g),
    decreases s.len(),
{
    if s.len() > 0 {
        let d = s.drop_last();
        assert forall|i: int| 0 <= i < d.len() implies st.has_block(#[trigger] d[i].1) && st.height_of(d[i].1) == d[i].0 by {
            assert(d[i] == s[i]);
        }
        lemma_votes_at_heights(d, st, g);
        assert(s.last() == s[s.len() - 1]);
    }
}

pub proof fn lemma_triple_prefix(s: Seq<(u64, u64, u64)>, i: int)
    requires
        0 <= i < s.len(),
    ensures
        triple_weight(s.take(i + 1)) == triple_weight(s.take(i)) + s[i].2,
        triple_weight(s.take(i + 1)) <= triple_weight(s),
    decreases s.len(),
{
    assert(s.take(i + 1).drop_last() =~= s.take(i));
    if i + 1 < s.len() {
        assert(s.drop_last().take(i + 1) =~= s.take(i + 1));
        lemma_triple_prefix(s.drop_last(), i);
    } else {
        assert(s.take(i + 1) =~= s);
    }
}

impl Default for Tallies {
    fn default() -> (r: Tallies)
        ensures
            r.wf(),
            r@.len() == 0,
    {
        Tallies::new()
    }
}

/// Every tally's blocks are stored at that tally's height.
pub open spec fn tallies_at_heights(st: State, v: TalliesView) -> bool {
    forall|i: int| 0 <= i < v.len() ==> all_at_height(st, #[trigger] v[i].1, v[i].0)
}

pub proof fn lemma_tally_at_heights(st: State, v: TalliesView, g: u64)
    requires
        tallies_at_heights(st, v),
    ensures
        all_at_height(st, tally_at(v, g), g),
    decreases v.len(),
{
    if v.len() > 0 {
        let d = v.drop_last();
        assert forall|i: int| 0 <= i < d.len() implies all_at_height(st, #[trigger] d[i].1, d[i].0) by {
            assert(d[i] == v[i]);
        }
        lemma_tally_at_heights(st, d, g);
        assert(v.last() == v[v.len() - 1]);
    }
}

pub proof fn lemma_add_all_heights(st: State, acc: Seq<(u64, u64)>, s: Seq<(u64, u64)>, g: u64)
    requires
        all_at_height(st, acc, g),
        all_at_height(st, s, g),
    ensures
        all_at_height(st, add_all(acc, s), g),
    decreases s.len(),
{
    if s.len() > 0 {
        let d = s.drop_last();
        assert forall|i: int| 0 <= i < d.len() implies st.has_block(#[trigger] d[i].0) && st.height_of(d[i].0) == g by {
            assert(d[i] == s[i]);
        }
        lemma_add_all_heights(st, acc, d, g);
        let a = add_all(acc, d);
        lemma_index_of(a, s.last().0);
        assert(s.last() == s[s.len() - 1]);
        let r = added(a, s.last().0, s.last().1);
        assert forall|i: int| 0 <= i < r.len() implies st.has_block(#[trigger] r[i].0) && st.height_of(r[i].0) == g by {
            if i < a.len() && i != index_of(a, s.last().0) {
                assert(r[i] == a[i]);
            }
        }
    }
}

pub proof fn lemma_parents_heights(st: State, s: Seq<(u64, u64)>, g: u64)
    requires
        st.wf(),
        all_at_height(st, s, g),
        g > 0,
    ensures
        all_at_height(st, parent_entries(st, s), (g - 1) as u64),
        all_have_parents(st, s),
        all_stored(st, s),
{
    assert forall|i: int| 0 <= i < s.len() implies st.has_block(#[trigger] parent_entries(st, s)[i].0)
        && st.height_of(parent_entries(st, s)[i].0) == g - 1 by {
        assert(st.has_block(s[i].0));
        st.lemma_block(s[i].0);
    }
}

/// Tallies by block height. The tally at each height holds only the votes
/// that point directly to a block at that height, not at a descendant.
///
/// Every weight is taken as honest: callers build tallies from the latest
/// votes of validators not known to be faulty.
///
/// Held as `(height, tally)` pairs with distinct heights (an invariant of
/// `wf`), in the order heights first received a vote; nothing depends on
/// that order (`lemma_decided_by_levels`).
pub struct Tallies(Vec<(u64, Tally)>);

impl View for Tallies {
    type V = TalliesView;

    closed spec fn view(&self) -> TalliesView {
        self.0@.map_values(|p: (u64, Tally)| (p.0, p.1@))
    }
}

impl Tallies {
    /// Heights distinct, each tally well-formed, total weight within `u64`.
    pub closed spec fn wf(&self) -> bool {
        &&& heights_distinct(self@)
        &&& forall|i: int| 0 <= i < self.0@.len() ==> (#[trigger] self.0@[i]).1.wf()
        &&& total_weight(self@) <= u64::MAX
    }

    /// No tallies.
    pub fn new() -> (r: Tallies)
        ensures
            r.wf(),
            r@.len() == 0,
    {
        let r = Tallies(Vec::new());
        proof {
            assert(r@.len() == 0);
        }
        r
    }

    /// Adds a vote of weight `weight` for `bhash` to the tally at `height`.
    pub fn add(&mut self, height: u64, bhash: u64, weight: u64)
        requires
            old(self).wf(),
            total_weight(old(self)@) + weight <= u64::MAX,
        ensures
            final(self).wf(),
            total_weight(final(self)@) == total_weight(old(self)@) + weight,
            forall|g: u64|
                #[trigger] tally_at(final(self)@, g) == if g == height {
                    added(tally_at(old(self)@, g), bhash, weight)
                } else {
                    tally_at(old(self)@, g)
                },
            forall|g: u64| #[trigger]
                has_height(final(self)@, g) <==> (g == height || has_height(old(self)@, g)),
    {
        let ghost pre = self@;
        let mut i: usize = 0;
        while i < self.0.len() && self.0[i].0 != height
            invariant
                i <= self.0@.len(),
                self@ == pre,
                forall|j: int| 0 <= j < i ==> self@[j].0 != height,
            decreases self.0@.len() - i,
        {
            i = i + 1;
        }
        proof {
            lemma_tally_at(pre, height);
            assert(self@.len() == self.0@.len());
        }
        if i < self.0.len() {
            let mut t = self.0[i].1.copy();
            proof {
                assert(pre[i as int].1 == tally_at(pre, height));
                lemma_total_update(pre, i as int, (height, added(t@, bhash, weight)));
                lemma_added(t@, bhash, weight);
            }
            t.add(bhash, weight);
            self.0.set(i, (height, t));
            proof {
                assert(self@ =~= pre.update(i as int, (height, t@)));
                lemma_total_update(pre, i as int, (height, t@));
                assert forall|a: int| 0 <= a < self@.len() implies #[trigger] self@[a].0 == pre[a].0 by {}
                assert(heights_distinct(self@));
                assert(self@[i as int].0 == height);
                assert forall|j: int| 0 <= j < self.0@.len() implies (#[trigger] self.0@[j]).1.wf() by {
                    if j != i {
                        assert(self.0@[j] == old(self).0@[j]);
                    }
                }
                assert forall|g: u64| #[trigger] tally_at(self@, g) == if g == height {
                    added(tally_at(pre, g), bhash, weight)
                } else {
                    tally_at(pre, g)
                } by {
                    lemma_tally_at(self@, g);
                    lemma_tally_at(pre, g);
                    if g != height {
                        if exists|j: int| 0 <= j < pre.len() && pre[j].0 == g {
                            let j = choose|j: int| 0 <= j < pre.len() && pre[j].0 == g;
                            assert(self@[j] == pre[j]);
                        } else {
                            assert forall|j: int| 0 <= j < self@.len() implies self@[j].0 != g by {
                                if j != i {
                                    assert(self@[j] == pre[j]);
                                }
                            }
                        }
                    }
                }
                assert forall|g: u64| #[trigger] has_height(self@, g) <==> (g == height || has_height(pre, g)) by {
                    if exists|j: int| 0 <= j < pre.len() && pre[j].0 == g {
                        let j = choose|j: int| 0 <= j < pre.len() && pre[j].0 == g;
                        assert(self@[j].0 == g);
                    }
                    if exists|j: int| 0 <= j < self@.len() && self@[j].0 == g {
                        let j = choose|j: int| 0 <= j < self@.len() && self@[j].0 == g;
                        assert(pre[j].0 == g);
                    }
                }
            }
        } else {
            let t = Tally::new(bhash, weight);
            self.0.push((height, t));
            proof {
                let x = (height, t@);
                assert(self@ =~= pre.push(x));
                assert(self@.drop_last() =~= pre);
                assert(index_of(Seq::<(u64, u64)>::empty(), bhash) == -1);
                assert(added(Seq::<(u64, u64)>::empty(), bhash, weight) =~= t@);
                reveal_with_fuel(sum_weights, 2);
                assert(sum_weights(t@) == weight) by {
                    assert(t@.drop_last() =~= Seq::<(u64, u64)>::empty());
                }
                assert(self@[pre.len() as int].0 == height);
                assert forall|a: int, b: int| 0 <= a < b < self@.len() implies #[trigger] self@[a].0
                    != #[trigger] self@[b].0 by {
                    if b < pre.len() {
                        assert(pre[a].0 != pre[b].0);
                    }
                }
                assert forall|j: int| 0 <= j < self.0@.len() implies (#[trigger] self.0@[j]).1.wf() by {
                    if j < pre.len() {
                        assert(self.0@[j] == old(self).0@[j]);
                    }
                }
                assert forall|g: u64| #[trigger] has_height(self@, g) <==> (g == height || has_height(pre, g)) by {
                    if exists|j: int| 0 <= j < pre.len() && pre[j].0 == g {
                        let j = choose|j: int| 0 <= j < pre.len() && pre[j].0 == g;
                        assert(self@[j].0 == g);
                    }
                    if exists|j: int| 0 <= j < self@.len() && self@[j].0 == g {
                        let j = choose|j: int| 0 <= j < self@.len() && self@[j].0 == g;
                        if j < pre.len() {
                            assert(pre[j].0 == g);
                        }
                    }
                }
            }
        }
    }

    /// Builds tallies from `(height, hash, weight)` votes, adding them in turn.
    pub fn from_iter(entries: Vec<(u64, u64, u64)>) -> (r: Tallies)
        requires
            triple_weight(entries@) <= u64::MAX,
        ensures
            r.wf(),
            total_weight(r@) == triple_weight(entries@),
            forall|g: u64| #[trigger] tally_at(r@, g) == add_all(Seq::empty(), votes_at(entries@, g)),
            forall|g: u64| #[trigger] has_height(r@, g) <==> votes_at(entries@, g).len() > 0,
    {
        let mut r = Tallies::new();
        let mut i: usize = 0;
        proof {
            assert forall|g: u64| #[trigger] tally_at(r@, g) == add_all(Seq::empty(), votes_at(entries@.take(0), g)) by {
                assert(entries@.take(0).len() == 0);
            }
            assert(triple_weight(entries@.take(0)) == 0);
        }
        while i < entries.len()
            invariant
                i <= entries@.len(),
                r.wf(),
                triple_weight(entries@) <= u64::MAX,
                total_weight(r@) == triple_weight(entries@.take(i as int)),
                forall|g: u64| #[trigger] tally_at(r@, g) == add_all(Seq::empty(), votes_at(entries@.take(i as int), g)),
                forall|g: u64| #[trigger] has_height(r@, g) <==> votes_at(entries@.take(i as int), g).len() > 0,
            decreases entries@.len() - i,
        {
            let (h, b, w) = entries[i];
            proof {
                lemma_triple_prefix(entries@, i as int);
            }
            r.add(h, b, w);
            proof {
                let e = entries@;
                let p = e.take(i as int);
                let q = e.take(i as int + 1);
                assert(q.drop_last() =~= p);
                assert(q.last() == e[i as int]);
                assert forall|g: u64| #[trigger] tally_at(r@, g) == add_all(Seq::empty(), votes_at(q, g)) by {
                    if g == h {
                        assert(votes_at(q, g).drop_last() =~= votes_at(p, g));
                    }
                }
            }
            i = i + 1;
        }
        proof {
            assert(entries@.take(i as int) =~= entries@);
        }
        r
    }

    /// Index of the tally at height `g`, if any.
    fn index_of_height(&self, g: u64) -> (r: Option<usize>)
        ensures
            match r {
                Some(i) => i < self.0@.len() && self@[i as int].0 == g,
                None => forall|j: int| 0 <= j < self@.len() ==> self@[j].0 != g,
            },
    {
        let mut i: usize = 0;
        while i < self.0.len()
            invariant
                i <= self.0@.len(),
                self@.len() == self.0@.len(),
                forall|j: int| 0 <= j < i ==> self@[j].0 != g,
            decreases self.0@.len() - i,
        {
            if self.0[i].0 == g {
                return Some(i);
            }
            i = i + 1;
        }
        None
    }

    /// Removes all votes for blocks that are not descendants of `bhash`, at
    /// `height`, and all tallies at `height` or below.
    #[verifier::rlimit(60)]
    pub fn filter(self, height: u64, bhash: u64, state: &State) -> (r: Tallies)
        requires
            self.wf(),
            state.wf(),
            tallies_at_heights(*state, self@),
        ensures
            r.wf(),
            r@ == filtered(self@, *state, height, bhash),
            tallies_at_heights(*state, r@),
            forall|i: int| 0 <= i < r@.len() ==> #[trigger] r@[i].0 > height,
            forall|i: int, j: int|
                0 <= i < r@.len() && 0 <= j < r@[i].1.len() ==> descends(*state, height, bhash, #[trigger] r@[i].1[j].0),
    {
        let ghost v = self@;
        let mut out = Tallies::new();
        let mut i: usize = 0;
        while i < self.0.len()
            invariant
                self.wf(),
                state.wf(),
                tallies_at_heights(*state, v),
                v == self@,
                v.len() == self.0@.len(),
                i <= v.len(),
                out.wf(),
                out@ == filtered(v.take(i as int), *state, height, bhash),
                total_weight(out@) <= total_weight(v.take(i as int)),
                forall|k: int| 0 <= k < out@.len() ==> exists|j: int| 0 <= j < i && v[j].0 == #[trigger] out@[k].0,
                tallies_at_heights(*state, out@),
                forall|k: int| 0 <= k < out@.len() ==> #[trigger] out@[k].0 > height,
                forall|k: int, j: int|
                    0 <= k < out@.len() && 0 <= j < out@[k].1.len() ==> descends(*state, height, bhash, #[trigger] out@[k].1[j].0),
            decreases v.len() - i,
        {
            let h = self.0[i].0;
            let ghost pre = out@;
            let ghost t = v[i as int].1;
            let ghost pred = |e: (u64, u64)| descends(*state, height, bhash, e.0);
            proof {
                let p = v.take(i as int);
                let q = v.take(i as int + 1);
                assert(q.drop_last() =~= p);
                assert(q.last() == v[i as int]);
                lemma_total_prefix(v, i as int);
                assert(self.0@[i as int].1.wf());
                assert(all_at_height(*state, t, h));
                lemma_filter(t, pred);
                assert(kept(*state, t, height, bhash) == t.filter(pred));
            }
            if h > height {
                let f = self.0[i].1.copy().filter(height, bhash, state);
                match f {
                    Some(ft) => {
                        let ghost fv = ft@;
                        let ghost pre_raw = out.0@;
                        out.0.push((h, ft));
                        proof {
                            assert(out@ =~= pre.push((h, fv)));
                            assert(out@.drop_last() =~= pre);
                            assert forall|a: int, b: int| 0 <= a < b < out@.len() implies #[trigger] out@[a].0
                                != #[trigger] out@[b].0 by {
                                if b == pre.len() {
                                    let j = choose|j: int| 0 <= j < i && v[j].0 == pre[a].0;
                                    assert(v[j].0 != v[i as int].0);
                                } else {
                                    assert(pre[a].0 != pre[b].0);
                                }
                            }
                            assert forall|j: int| 0 <= j < out.0@.len() implies (#[trigger] out.0@[j]).1.wf() by {
                                if j < pre.len() {
                                    assert(out.0@[j] == pre_raw[j]);
                                }
                            }
                            assert forall|k: int| 0 <= k < out@.len() implies exists|j: int| 0 <= j < i + 1 && v[j].0 == #[trigger] out@[k].0 by {
                                if k < pre.len() {
                                    assert(out@[k] == pre[k]);
                                } else {
                                    assert(v[i as int].0 == out@[k].0);
                                }
                            }
                            assert forall|k: int| 0 <= k < out@.len() implies all_at_height(*state, #[trigger] out@[k].1, out@[k].0) by {
                                if k < pre.len() {
                                    assert(out@[k] == pre[k]);
                                } else {
                                    assert forall|j: int| 0 <= j < fv.len() implies state.has_block(#[trigger] fv[j].0) && state.height_of(fv[j].0) == h by {
                                        let m = choose|m: int| 0 <= m < t.len() && t[m] == fv[j];
                                    }
                                }
                            }
                            assert forall|k: int, j: int|
                                0 <= k < out@.len() && 0 <= j < out@[k].1.len() implies descends(*state, height, bhash, #[trigger] out@[k].1[j].0) by {
                                if k < pre.len() {
                                    assert(out@[k] == pre[k]);
                                } else {
                                    assert(pred(fv[j]));
                                }
                            }
                        }
                    },
                    None => {},
                }
            }
            i = i + 1;
        }
        proof {
            assert(v.take(i as int) =~= v);
        }
        out
    }

    /// Returns the height and hash of the decided block: the deepest block
    /// whose sub-tree holds a strict majority of the weight, or the heaviest
    /// child of it that a vote above supports. `None` if there are no
    /// tallies.
    pub fn find_decided(&self, state: &State) -> (r: Option<(u64, u64)>)
        requires
            self.wf(),
            state.wf(),
            tallies_at_heights(*state, self@),
        ensures
            r == decided(self@, *state),
            r is None <==> self@.len() == 0,
    {
        let ghost v = self@;
        if self.0.len() == 0 {
            return None;
        }
        let mut mi: usize = 0;
        let mut i: usize = 1;
        let mut total: u64 = self.0[0].1.weight();
        proof {
            assert(v.take(1).drop_last() =~= v.take(0));
            assert(v.take(1).last() == v[0]);
            assert(v.take(1) =~= seq![v[0]]);
            assert(self.0@[0].1.wf());
            lemma_total_prefix(v, 0);
        }
        while i < self.0.len()
            invariant
                self.wf(),
                v == self@,
                v.len() == self.0@.len(),
                1 <= i <= v.len(),
                mi < i,
                v[mi as int].0 == max_height(v.take(i as int)),
                total == total_weight(v.take(i as int)),
            decreases v.len() - i,
        {
            proof {
                lemma_total_prefix(v, i as int);
                assert(v.take(i as int + 1).drop_last() =~= v.take(i as int));
                assert(v.take(i as int + 1).last() == v[i as int]);
                assert(self.0@[i as int].1.wf());
            }
            total = total + self.0[i].1.weight();
            if self.0[i].0 >= self.0[mi].0 {
                mi = i;
            }
            i = i + 1;
        }
        proof {
            assert(v.take(i as int) =~= v);
            lemma_max_height(v);
            lemma_tally_at(v, max_height(v));
            lemma_total_above(v, max_height(v) as int);
            lemma_total_above(v, max_height(v) as int + 1);
            lemma_tally_at_heights(*state, v, max_height(v));
            assert(self.0@[mi as int].1.wf());
        }
        let max_h = self.0[mi].0;
        let mut prev = self.0[mi].1.copy();
        let mut h: u64 = max_h;
        while h > 0
            invariant
                self.wf(),
                state.wf(),
                tallies_at_heights(*state, v),
                v == self@,
                v.len() == self.0@.len(),
                v.len() > 0,
                total == total_weight(v) <= u64::MAX,
                prev.wf(),
                all_at_height(*state, prev@, h),
                sum_weights(prev@) == total_above(v, h + 1) + sum_weights(tally_at(v, h)),
                decided(v, *state) == Some(decide(v, *state, total as nat, h as nat, prev@)),
            decreases h,
        {
            let g: u64 = h - 1;
            proof {
                lemma_parents_heights(*state, prev@, h);
                lemma_parent_entries_sum(*state, prev@);
                lemma_total_above(v, h as int);
                lemma_total_above(v, g as int);
                lemma_tally_at_heights(*state, v, g);
                lemma_tally_at(v, g);
                lemma_add_all_heights(*state, Seq::empty(), parent_entries(*state, prev@), g);
                lemma_add_all(Seq::empty(), parent_entries(*state, prev@));
            }
            let mut ht = prev.parents(state);
            let ghost pt = ht@;
            match self.index_of_height(g) {
                Some(k) => {
                    proof {
                        assert(self.0@[k as int].1.wf());
                        assert(self.0@[k as int].1.votes@ == tally_at(v, g));
                    }
                    ht.extend(&self.0[k].1.votes);
                },
                None => {
                    proof {
                        assert(add_all(pt, tally_at(v, g)) == pt);
                    }
                },
            }
            proof {
                lemma_add_all_heights(*state, pt, tally_at(v, g), g);
                lemma_add_all(pt, tally_at(v, g));
                assert(ht@ == level(v, *state, prev@, g));
            }
            if (ht.max_w() as u128) * 2 > total as u128 {
                let b = ht.max_bhash();
                let f = prev.filter(g, b, state);
                return match f {
                    Some(t) => Some((h, t.max_bhash())),
                    None => Some((g, b)),
                };
            }
            prev = ht;
            h = g;
        }
        Some((0, prev.max_bhash()))
    }

    /// The tally at `height`, if there is one.
    pub fn get(&self, height: u64) -> (r: Option<&Tally>)
        requires
            self.wf(),
        ensures
            r is None <==> !has_height(self@, height),
            r matches Some(t) ==> t.wf() && t@ == tally_at(self@, height),
    {
        match self.index_of_height(height) {
            Some(i) => {
                proof {
                    lemma_tally_at(self@, height);
                    assert(self.0@[i as int].1.wf());
                }
                Some(&self.0[i].1)
            },
            None => None,
        }
    }

    /// The number of heights with a tally.
    pub fn len(&self) -> (r: usize)
        ensures
            r == self@.len(),
    {
        self.0.len()
    }

    /// No height holds two tallies.
    pub proof fn lemma_heights_distinct(&self)
        requires
            self.wf(),
        ensures
            heights_distinct(self@),
    {
    }

    /// The tallies' blocks sit at their tallies' heights as soon as this
    /// holds of the tally at each height.
    pub proof fn lemma_at_heights(&self, st: State)
        requires
            self.wf(),
            forall|g: u64| #[trigger] all_at_height(st, tally_at(self@, g), g),
        ensures
            tallies_at_heights(st, self@),
    {
        let v = self@;
        assert forall|i: int| 0 <= i < v.len() implies all_at_height(st, #[trigger] v[i].1, v[i].0) by {
            lemma_tally_at(v, v[i].0);
            assert(all_at_height(st, tally_at(v, v[i].0), v[i].0));
        }
    }

    /// Tallies built from votes for stored blocks, each given at its block's
    /// height, hold every block at its tally's height.
    pub proof fn lemma_from_triples(&self, entries: Seq<(u64, u64, u64)>, st: State)
        requires
            self.wf(),
            forall|g: u64| #[trigger] tally_at(self@, g) == add_all(Seq::empty(), votes_at(entries, g)),
            triples_at_heights(st, entries),
        ensures
            tallies_at_heights(st, self@),
    {
        assert forall|g: u64| #[trigger] all_at_height(st, tally_at(self@, g), g) by {
            lemma_votes_at_heights(entries, st, g);
            lemma_add_all_heights(st, Seq::empty(), votes_at(entries, g), g);
        }
        self.lemma_at_heights(st);
    }

    /// Whether there are no tallies.
    pub fn is_empty(&self) -> (r: bool)
        ensures
            r == (self@.len() == 0),
    {
        self.0.len() == 0
    }
}

/// The cached maximum of a tally is its greatest weight, and among the
/// blocks with that weight the greatest hash.
pub proof fn lemma_tally_max(t: &Tally)
    requires
        t.wf(),
    ensures
        exists|i: int| 0 <= i < t@.len() && t@[i].1 == top(t@).0 && t@[i].0 == top(t@).1,
        forall|i: int| 0 <= i < t@.len() ==> t@[i].1 <= top(t@).0,
        forall|i: int| 0 <= i < t@.len() && t@[i].1 == top(t@).0 ==> t@[i].0 <= top(t@).1,
{
    lemma_top(t@);
}

/// Adding weight `w` to a tally raises its total by exactly `w` and never
/// lowers its maximum weight.
pub proof fn lemma_add_weight(t: &Tally, bhash: u64, w: u64)
    requires
        t.wf(),
        sum_weights(t@) + w <= u64::MAX,
    ensures
        sum_weights(added(t@, bhash, w)) == sum_weights(t@) + w,
        top(added(t@, bhash, w)).0 >= top(t@).0,
{
    lemma_added(t@, bhash, w);
    lemma_top_added(t@, bhash, w);
}

/// Moving a tally's votes to the parents of their blocks keeps its total
/// weight.
pub proof fn lemma_parents_weight(t: &Tally, st: State)
    requires
        t.wf(),
        st.wf(),
        all_have_parents(st, t@),
    ensures
        sum_weights(add_all(Seq::empty(), parent_entries(st, t@))) == sum_weights(t@),
{
    lemma_parent_entries_sum(st, t@);
    lemma_add_all(Seq::empty(), parent_entries(st, t@));
}

proof fn lemma_decide_same_levels(
    v1: TalliesView,
    v2: TalliesView,
    st: State,
    total: nat,
    h: nat,
    prev: Seq<(u64, u64)>,
)
    requires
        forall|g: u64| #[trigger] tally_at(v1, g) == tally_at(v2, g),
    ensures
        decide(v1, st, total, h, prev) == decide(v2, st, total, h, prev),
    decreases h,
{
    if h > 0 {
        let g = (h - 1) as u64;
        assert(tally_at(v1, g) == tally_at(v2, g));
        lemma_decide_same_levels(v1, v2, st, total, (h - 1) as nat, level(v1, st, prev, g));
    }
}

/// The decided block depends only on which tally stands at each height and
/// on the total weight, not on the order in which the heights are held.
pub proof fn lemma_decided_by_levels(a: &Tallies, b: &Tallies, st: State)
    requires
        a.wf(),
        b.wf(),
        forall|g: u64| #[trigger] tally_at(a@, g) == tally_at(b@, g),
        forall|g: u64| #[trigger] has_height(a@, g) == has_height(b@, g),
        total_weight(a@) == total_weight(b@),
    ensures
        decided(a@, st) == decided(b@, st),
{
    if a@.len() > 0 {
        lemma_max_height(a@);
        assert(has_height(a@, max_height(a@)));
        assert(has_height(b@, max_height(a@)));
    }
    if b@.len() > 0 {
        lemma_max_height(b@);
        assert(has_height(b@, max_height(b@)));
        assert(has_height(a@, max_height(b@)));
    }
    if a@.len() > 0 && b@.len() > 0 {
        let ma = max_height(a@);
        let mb = max_height(b@);
        let ia = choose|i: int| 0 <= i < b@.len() && b@[i].0 == ma;
        let ib = choose|i: int| 0 <= i < a@.len() && a@[i].0 == mb;
        assert(ma == mb);
        lemma_decide_same_levels(a@, b@, st, total_weight(a@), ma as nat, tally_at(a@, ma));
    }
}

/// Weight of the entries whose block has `x` as its ancestor at height `g`.
pub open spec fn desc_weight(st: State, s: Seq<(u64, u64)>, g: u64, x: u64) -> nat
    decreases s.len(),
{
    if s.len() == 0 {
        0
    } else {
        desc_weight(st, s.drop_last(), g, x) + if descends(st, g, x, s.last().0) {
            s.last().1 as nat
        } else {
            0
        }
    }
}

/// Weight of the votes at heights `low` and above whose block has `x` as its
/// ancestor at height `g`.
pub open spec fn under(v: TalliesView, st: State, low: int, g: u64, x: u64) -> nat
    decreases v.len(),
{
    if v.len() == 0 {
        0
    } else {
        under(v.drop_last(), st, low, g, x) + if v.last().0 >= low {
            desc_weight(st, v.last().1, g, x)
        } else {
            0
        }
    }
}

proof fn lemma_desc_update(st: State, s: Seq<(u64, u64)>, i: int, e: (u64, u64), g: u64, x: u64)
    requires
        0 <= i < s.len(),
        e.0 == s[i].0,
    ensures
        desc_weight(st, s.update(i, e), g, x) + (if descends(st, g, x, e.0) { s[i].1 as int } else { 0 })
            == desc_weight(st, s, g, x) + (if descends(st, g, x, e.0) { e.1 as int } else { 0 }),
    decreases s.len(),
{
    let t = s.update(i, e);
    if i == s.len() - 1 {
        assert(t.drop_last() =~= s.drop_last());
    } else {
        assert(t.drop_last() =~= s.drop_last().update(i, e));
        lemma_desc_update(st, s.drop_last(), i, e, g, x);
    }
}

proof fn lemma_desc_add_all(st: State, acc: Seq<(u64, u64)>, s: Seq<(u64, u64)>, g: u64, x: u64)
    requires
        keys_distinct(acc),
        sum_weights(acc) + sum_weights(s) <= u64::MAX,
    ensures
        desc_weight(st, add_all(acc, s), g, x) == desc_weight(st, acc, g, x) + desc_weight(st, s, g, x),
    decreases s.len(),
{
    if s.len() > 0 {
        let d = s.drop_last();
        lemma_prefix_sum(s, s.len() - 1);
        assert(s.take(s.len() - 1) =~= d);
        assert(s.take(s.len() as int) =~= s);
        lemma_desc_add_all(st, acc, d, g, x);
        lemma_add_all(acc, d);
        let a = add_all(acc, d);
        let (b, w) = s.last();
        lemma_index_of(a, b);
        let i = index_of(a, b);
        if i < 0 {
            assert(a.push((b, w)).drop_last() =~= a);
        } else {
            lemma_sum_update(a, i, (b, 0));
            lemma_desc_update(st, a, i, (b, (a[i].1 + w) as u64), g, x);
        }
    }
}

/// A block above height `g` has the same ancestor at `g` as its parent.
proof fn lemma_ancestor_parent(st: State, b: u64, g: u64)
    requires
        st.wf(),
        st.has_block(b),
        st.height_of(b) > g,
    ensures
        st.ancestor(b, g) == st.ancestor(st.parent_of(b), g),
{
    st.lemma_block(b);
    let k = (st.height_of(b) - g) as nat;
    assert(st.walk(b, k) == st.walk(st.parent_of(b), (k - 1) as nat));
}

proof fn lemma_desc_parents(st: State, s: Seq<(u64, u64)>, h: u64, g: u64, x: u64)
    requires
        st.wf(),
        all_at_height(st, s, h),
        g < h,
    ensures
        desc_weight(st, parent_entries(st, s), g, x) == desc_weight(st, s, g, x),
    decreases s.len(),
{
    if s.len() > 0 {
        let d = s.drop_last();
        assert forall|i: int| 0 <= i < d.len() implies st.has_block(#[trigger] d[i].0) && st.height_of(d[i].0) == h by {
            assert(d[i] == s[i]);
        }
        lemma_desc_parents(st, d, h, g, x);
        assert(parent_entries(st, s).drop_last() =~= parent_entries(st, d));
        assert(s.last() == s[s.len() - 1]);
        lemma_ancestor_parent(st, s.last().0, g);
    }
}

proof fn lemma_under_step(v: TalliesView, st: State, low: int, g: u64, x: u64)
    requires
        heights_distinct(v),
    ensures
        0 <= low <= u64::MAX ==> under(v, st, low, g, x) == under(v, st, low + 1, g, x) + desc_weight(
            st,
            tally_at(v, low as u64),
            g,
            x,
        ),
        (forall|i: int| 0 <= i < v.len() ==> v[i].0 < low) ==> under(v, st, low, g, x) == 0,
    decreases v.len(),
{
    if v.len() > 0 {
        let d = v.drop_last();
        assert(heights_distinct(d));
        lemma_under_step(d, st, low, g, x);
        assert forall|i: int| 0 <= i < d.len() implies d[i] == v[i] by {}
        if 0 <= low <= u64::MAX && v.last().0 == low {
            lemma_tally_at(d, low as u64);
            assert forall|i: int| 0 <= i < d.len() implies d[i].0 != low by {
                assert(v[i].0 != v[v.len() - 1].0);
            }
        }
    }
}

proof fn lemma_desc_entry(st: State, s: Seq<(u64, u64)>, i: int, g: u64, x: u64)
    requires
        0 <= i < s.len(),
        descends(st, g, x, s[i].0),
    ensures
        s[i].1 <= desc_weight(st, s, g, x),
    decreases s.len(),
{
    if i < s.len() - 1 {
        assert(s.drop_last()[i] == s[i]);
        lemma_desc_entry(st, s.drop_last(), i, g, x);
    }
}

proof fn lemma_desc_all(st: State, s: Seq<(u64, u64)>, g: u64, x: u64)
    ensures
        (forall|i: int| 0 <= i < s.len() ==> descends(st, g, x, #[trigger] s[i].0)) ==> desc_weight(st, s, g, x)
            == sum_weights(s),
        (forall|i: int| 0 <= i < s.len() ==> !descends(st, g, x, #[trigger] s[i].0)) ==> desc_weight(st, s, g, x)
            == 0,
    decreases s.len(),
{
    if s.len() > 0 {
        let d = s.drop_last();
        assert forall|i: int| 0 <= i < d.len() implies d[i] == s[i] by {}
        lemma_desc_all(st, d, g, x);
        assert(s.last() == s[s.len() - 1]);
    }
}

/// Votes below height `g` have no ancestor there.
proof fn lemma_under_low(v: TalliesView, st: State, low: int, g: u64, x: u64)
    requires
        heights_distinct(v),
        tallies_at_heights(st, v),
        0 <= low <= g,
    ensures
        under(v, st, low, g, x) == under(v, st, g as int, g, x),
    decreases g - low,
{
    if low < g {
        lemma_under_step(v, st, low, g, x);
        lemma_tally_at_heights(st, v, low as u64);
        let t = tally_at(v, low as u64);
        assert forall|i: int| 0 <= i < t.len() implies !descends(st, g, x, #[trigger] t[i].0) by {
            assert(st.has_block(t[i].0) && st.height_of(t[i].0) == low);
        }
        lemma_desc_all(st, t, g, x);
        lemma_under_low(v, st, low + 1, g, x);
    }
}

proof fn lemma_total_above_zero(v: TalliesView)
    ensures
        total_above(v, 0) == total_weight(v),
    decreases v.len(),
{
    if v.len() > 0 {
        lemma_total_above_zero(v.drop_last());
    }
}

/// There is at most one block at height 0.
pub open spec fn genesis_unique(st: State) -> bool {
    forall|i: int, j: int|
        0 <= i < st.blocks@.len() && 0 <= j < st.blocks@.len() && #[trigger] st.blocks@[i].height == 0
            && #[trigger] st.blocks@[j].height == 0 ==> st.blocks@[i].hash == st.blocks@[j].hash
}

/// The block `r.1` lies in the sub-tree of a block at height `r.0`, or one
/// level below, whose sub-tree holds strictly more than half of all weight.
pub open spec fn backed(v: TalliesView, st: State, r: (u64, u64)) -> bool {
    exists|g: u64, x: u64|
        (g == r.0 || g + 1 == r.0) && st.ancestor(r.1, g) == Some(x) && 2 * under(v, st, 0, g, x)
            > total_weight(v)
}

/// At height 0 with a unique genesis, a tally holds one block carrying all
/// of its weight.
proof fn lemma_genesis_level(st: State, s: Seq<(u64, u64)>)
    requires
        st.wf(),
        genesis_unique(st),
        all_at_height(st, s, 0),
        keys_distinct(s),
        s.len() > 0,
    ensures
        s.len() == 1,
        top(s).0 == sum_weights(s),
        st.ancestor(top(s).1, 0) == Some(top(s).1),
        forall|i: int| 0 <= i < s.len() ==> descends(st, 0, top(s).1, #[trigger] s[i].0),
{
    st.lemma_block(s[0].0);
    if s.len() > 1 {
        st.lemma_block(s[1].0);
        assert(st.has_block(s[0].0));
        assert(st.has_block(s[1].0));
        let i = choose|i: int| 0 <= i < st.blocks@.len() && #[trigger] st.blocks@[i].hash == s[0].0;
        let j = choose|j: int| 0 <= j < st.blocks@.len() && #[trigger] st.blocks@[j].hash == s[1].0;
        st.lemma_block_at(i);
        st.lemma_block_at(j);
        assert(s[0].0 != s[1].0);
    }
    reveal_with_fuel(sum_weights, 2);
    assert(s.drop_last() =~= Seq::<(u64, u64)>::empty());
    assert(st.walk(s[0].0, 0) == Some(s[0].0));
}

proof fn lemma_decide_backed(v: TalliesView, st: State, total: nat, h: nat, prev: Seq<(u64, u64)>)
    requires
        st.wf(),
        genesis_unique(st),
        heights_distinct(v),
        tallies_at_heights(st, v),
        total == total_weight(v) <= u64::MAX,
        total > 0,
        h <= u64::MAX,
        all_at_height(st, prev, h as u64),
        keys_distinct(prev),
        prev.len() > 0,
        sum_weights(prev) == total_above(v, h as int),
        forall|g: u64, x: u64| g <= h ==> #[trigger] desc_weight(st, prev, g, x) == under(v, st, h as int, g, x),
    ensures
        backed(v, st, decide(v, st, total, h, prev)),
    decreases h,
{
    if h == 0 {
        lemma_genesis_level(st, prev);
        let b = top(prev).1;
        lemma_desc_all(st, prev, 0, b);
        lemma_total_above_zero(v);
        assert(desc_weight(st, prev, 0, b) == under(v, st, 0, 0, b));
        assert(backed(v, st, (0, b)));
    } else {
        let g0 = (h - 1) as u64;
        let pe = parent_entries(st, prev);
        lemma_total_above(v, h as int);
        lemma_parents_heights(st, prev, h as u64);
        lemma_parent_entries_sum(st, prev);
        lemma_add_all(Seq::empty(), pe);
        let p1 = add_all(Seq::empty(), pe);
        lemma_total_above(v, g0 as int);
        lemma_total_above_zero(v);
        lemma_total_above(v, 0);
        lemma_tally_at_heights(st, v, g0);
        let tg = tally_at(v, g0);
        assert(total_above(v, g0 as int) <= total);
        lemma_add_all(p1, tg);
        let ht = add_all(p1, tg);
        assert(ht == level(v, st, prev, g0));
        lemma_add_all_heights(st, Seq::empty(), pe, g0);
        lemma_add_all_heights(st, p1, tg, g0);
        assert forall|g: u64, x: u64| g <= g0 implies #[trigger] desc_weight(st, ht, g, x) == under(
            v,
            st,
            g0 as int,
            g,
            x,
        ) by {
            lemma_desc_add_all(st, Seq::empty(), pe, g, x);
            lemma_desc_add_all(st, p1, tg, g, x);
            lemma_desc_parents(st, prev, h as u64, g, x);
            lemma_under_step(v, st, g0 as int, g, x);
            assert(desc_weight(st, Seq::<(u64, u64)>::empty(), g, x) == 0);
        }
        let m = top(ht);
        lemma_top(ht);
        let k = choose|k: int| 0 <= k < ht.len() && m == (ht[k].1, ht[k].0);
        assert(st.has_block(ht[k].0) && st.height_of(ht[k].0) == g0);
        st.lemma_block(ht[k].0);
        assert(st.walk(m.1, 0) == Some(m.1));
        assert(st.ancestor(m.1, g0) == Some(m.1));
        if m.0 * 2 > total {
            lemma_desc_entry(st, ht, k, g0, m.1);
            lemma_under_low(v, st, 0, g0, m.1);
            assert(2 * under(v, st, 0, g0, m.1) > total);
            let f = kept(st, prev, g0, m.1);
            if f.len() > 0 {
                lemma_top(f);
                let pred = |e: (u64, u64)| descends(st, g0, m.1, e.0);
                lemma_filter(prev, pred);
                let j = choose|j: int| 0 <= j < f.len() && top(f) == (f[j].1, f[j].0);
                assert(pred(f[j]));
                assert(st.ancestor(top(f).1, g0) == Some(m.1));
                assert(backed(v, st, ((g0 + 1) as u64, top(f).1)));
            } else {
                assert(backed(v, st, (g0, m.1)));
            }
        } else {
            if g0 == 0 {
                lemma_genesis_level(st, ht);
                assert(false);
            }
            lemma_decide_backed(v, st, total, (h - 1) as nat, ht);
        }
    }
}

/// At the top height `m`, the weight of the top tally under any block at a
/// height up to `m` is all the weight under it from height `m` up.
proof fn lemma_top_level(v: TalliesView, st: State, m: u64)
    requires
        heights_distinct(v),
        forall|i: int| 0 <= i < v.len() ==> v[i].0 <= m,
    ensures
        forall|g: u64, x: u64| g <= m ==> #[trigger] desc_weight(st, tally_at(v, m), g, x) == under(v, st, m as int, g, x),
{
    assert forall|g: u64, x: u64| g <= m implies #[trigger] desc_weight(st, tally_at(v, m), g, x) == under(v, st, m as int, g, x) by {
        lemma_under_step(v, st, m as int, g, x);
        lemma_under_step(v, st, m as int + 1, g, x);
    }
}

proof fn lemma_decided_backed(v: TalliesView, st: State)
    requires
        st.wf(),
        genesis_unique(st),
        heights_distinct(v),
        tallies_at_heights(st, v),
        total_weight(v) <= u64::MAX,
        total_weight(v) > 0,
        v.len() > 0,
        forall|i: int| 0 <= i < v.len() ==> keys_distinct(#[trigger] v[i].1) && v[i].1.len() > 0,
    ensures
        backed(v, st, decided(v, st)->0),
{
    let m = max_height(v);
    lemma_max_height(v);
    lemma_tally_at(v, m);
    let i = choose|i: int| 0 <= i < v.len() && v[i].0 == m;
    assert(keys_distinct(v[i].1) && v[i].1.len() > 0);
    lemma_total_above(v, m as int);
    lemma_total_above(v, m as int + 1);
    lemma_tally_at_heights(st, v, m);
    let prev = tally_at(v, m);
    lemma_top_level(v, st, m);
    lemma_decide_backed(v, st, total_weight(v), m as nat, prev);
}

/// With a unique genesis and some weight in the tallies, the decided block
/// lies in the sub-tree of a block holding a strict majority of all weight:
/// the decided block itself, or its parent when the decision descends one
/// level further into that sub-tree.
pub proof fn lemma_decided_majority(a: &Tallies, st: State)
    requires
        a.wf(),
        st.wf(),
        genesis_unique(st),
        tallies_at_heights(st, a@),
        total_weight(a@) > 0,
    ensures
        decided(a@, st) matches Some(r) ==> backed(a@, st, r),
{
    let v = a@;
    if v.len() > 0 {
        assert forall|i: int| 0 <= i < v.len() implies keys_distinct(#[trigger] v[i].1) && v[i].1.len() > 0 by {
            assert(a.0@[i].1.wf());
            assert(v[i].1 == a.0@[i].1@);
        }
        lemma_decided_backed(v, st);
    }
}

/// The tally from which the finality rule, from level `h` down, picks the
/// block it returns: the deciding level, or the part of the votes above it
/// that lies in the majority's sub-tree, or the level-0 tally.
pub open spec fn deciding(v: TalliesView, st: State, total: nat, h: nat, prev: Seq<(u64, u64)>) -> Seq<
    (u64, u64),
>
    decreases h,
{
    if h == 0 {
        prev
    } else {
        let g = (h - 1) as u64;
        let ht = level(v, st, prev, g);
        if top(ht).0 * 2 > total {
            let f = kept(st, prev, g, top(ht).1);
            if f.len() > 0 {
                f
            } else {
                ht
            }
        } else {
            deciding(v, st, total, (h - 1) as nat, ht)
        }
    }
}

/// The tally from which `find_decided` picks its block.
pub open spec fn deciding_tally(v: TalliesView, st: State) -> Seq<(u64, u64)> {
    let m = max_height(v);
    deciding(v, st, total_weight(v), m as nat, tally_at(v, m))
}

proof fn lemma_add_all_len(acc: Seq<(u64, u64)>, s: Seq<(u64, u64)>)
    ensures
        add_all(acc, s).len() >= acc.len(),
        s.len() > 0 ==> add_all(acc, s).len() > 0,
    decreases s.len(),
{
    if s.len() > 0 {
        let a = add_all(acc, s.drop_last());
        lemma_add_all_len(acc, s.drop_last());
        lemma_index_of(a, s.last().0);
    }
}

proof fn lemma_deciding(v: TalliesView, st: State, total: nat, h: nat, prev: Seq<(u64, u64)>)
    requires
        prev.len() > 0,
    ensures
        decide(v, st, total, h, prev).1 == top(deciding(v, st, total, h, prev)).1,
        deciding(v, st, total, h, prev).len() > 0,
    decreases h,
{
    if h > 0 {
        let g = (h - 1) as u64;
        let pe = parent_entries(st, prev);
        assert(pe.len() == prev.len());
        lemma_add_all_len(Seq::empty(), pe);
        lemma_add_all_len(add_all(Seq::empty(), pe), tally_at(v, g));
        lemma_deciding(v, st, total, (h - 1) as nat, level(v, st, prev, g));
    }
}

/// Ties are broken by the greater hash: `find_decided` returns the block
/// of greatest weight in the tally it picks from, and of the blocks tied at
/// that weight, the one with the greatest hash.
pub proof fn lemma_decided_tie_break(a: &Tallies, st: State)
    requires
        a.wf(),
    ensures
        decided(a@, st) matches Some(r) ==> {
            let s = deciding_tally(a@, st);
            &&& exists|i: int| 0 <= i < s.len() && s[i].0 == r.1 && s[i].1 == top(s).0
            &&& forall|i: int| 0 <= i < s.len() ==> s[i].1 <= top(s).0
            &&& forall|i: int| 0 <= i < s.len() && s[i].1 == top(s).0 ==> s[i].0 <= r.1
        },
{
    let v = a@;
    if v.len() > 0 {
        let m = max_height(v);
        lemma_max_height(v);
        lemma_tally_at(v, m);
        let i = choose|i: int| 0 <= i < v.len() && v[i].0 == m;
        assert(a.0@[i].1.wf());
        assert(v[i].1 == a.0@[i].1@);
        lemma_deciding(v, st, total_weight(v), m as nat, tally_at(v, m));
        lemma_top(deciding_tally(v, st));
    }
}

} // verus!
