//! The entries of a tally as a sequence of `(hash, weight)` pairs, and what
//! adding, summing, filtering and moving them to parent blocks does.
use vstd::prelude::*;

use crate::state::State;

verus! {

/// Lexicographic order on `(weight, hash)` pairs.
pub open spec fn lex_le(a: (u64, u64), b: (u64, u64)) -> bool {
    a.0 < b.0 || (a.0 == b.0 && a.1 <= b.1)
}

/// The lexicographically greater of two `(weight, hash)` pairs.
pub open spec fn lex_max(a: (u64, u64), b: (u64, u64)) -> (u64, u64) {
    if lex_le(a, b) {
        b
    } else {
        a
    }
}

/// No hash occurs twice among the `(hash, weight)` entries.
pub open spec fn keys_distinct(s: Seq<(u64, u64)>) -> bool {
    forall|i: int, j: int| 0 <= i < j < s.len() ==> #[trigger] s[i].0 != #[trigger] s[j].0
}

/// Sum of the weights of the entries.
pub open spec fn sum_weights(s: Seq<(u64, u64)>) -> nat
    decreases s.len(),
{
    if s.len() == 0 {
        0
    } else {
        sum_weights(s.drop_last()) + s.last().1 as nat
    }
}

/// The greatest `(weight, hash)` pair among the entries, by `lex_le`.
pub open spec fn top(s: Seq<(u64, u64)>) -> (u64, u64)
    decreases s.len(),
{
    if s.len() <= 1 {
        (s[0].1, s[0].0)
    } else {
        lex_max(top(s.drop_last()), (s.last().1, s.last().0))
    }
}

/// Position of the last entry for hash `b`, or -1.
pub open spec fn index_of(s: Seq<(u64, u64)>, b: u64) -> int
    decreases s.len(),
{
    if s.len() == 0 {
        -1
    } else if s.last().0 == b {
        s.len() - 1
    } else {
        index_of(s.drop_last(), b)
    }
}

/// The entries after adding weight `w` to hash `b`.
pub open spec fn added(s: Seq<(u64, u64)>, b: u64, w: u64) -> Seq<(u64, u64)> {
    let i = index_of(s, b);
    if i < 0 {
        s.push((b, w))
    } else {
        s.update(i, (b, (s[i].1 + w) as u64))
    }
}

/// The entries after adding each of `s` in turn to `acc`.
pub open spec fn add_all(acc: Seq<(u64, u64)>, s: Seq<(u64, u64)>) -> Seq<(u64, u64)>
    decreases s.len(),
{
    if s.len() == 0 {
        acc
    } else {
        let prev = add_all(acc, s.drop_last());
        added(prev, s.last().0, s.last().1)
    }
}

pub proof fn lemma_index_of(s: Seq<(u64, u64)>, b: u64)
    ensures
        -1 <= index_of(s, b) < s.len(),
        index_of(s, b) >= 0 ==> s[index_of(s, b)].0 == b,
        index_of(s, b) < 0 ==> forall|j: int| 0 <= j < s.len() ==> s[j].0 != b,
        keys_distinct(s) ==> forall|j: int| 0 <= j < s.len() && s[j].0 == b ==> index_of(s, b) == j,
    decreases s.len(),
{
    if s.len() > 0 {
        lemma_index_of(s.drop_last(), b);
        assert forall|j: int| 0 <= j < s.len() - 1 implies s.drop_last()[j] == s[j] by {}
        if keys_distinct(s) {
            assert(keys_distinct(s.drop_last()));
        }
    }
}

pub proof fn lemma_sum_update(s: Seq<(u64, u64)>, i: int, e: (u64, u64))
    requires
        0 <= i < s.len(),
    ensures
        sum_weights(s.update(i, e)) == sum_weights(s) - s[i].1 + e.1,
        s[i].1 <= sum_weights(s),
    decreases s.len(),
{
    let t = s.update(i, e);
    if i == s.len() - 1 {
        assert(t.drop_last() =~= s.drop_last());
    } else {
        assert(t.drop_last() =~= s.drop_last().update(i, e));
        lemma_sum_update(s.drop_last(), i, e);
    }
}

pub proof fn lemma_sum_push(s: Seq<(u64, u64)>, e: (u64, u64))
    ensures
        sum_weights(s.push(e)) == sum_weights(s) + e.1,
{
    assert(s.push(e).drop_last() =~= s);
}

/// Adding weight `w` raises the total by exactly `w` and keeps hashes distinct.
pub proof fn lemma_added(s: Seq<(u64, u64)>, b: u64, w: u64)
    requires
        keys_distinct(s),
        sum_weights(s) + w <= u64::MAX,
    ensures
        keys_distinct(added(s, b, w)),
        sum_weights(added(s, b, w)) == sum_weights(s) + w,
        added(s, b, w).len() >= 1,
{
    lemma_index_of(s, b);
    let i = index_of(s, b);
    if i < 0 {
        lemma_sum_push(s, (b, w));
    } else {
        lemma_sum_update(s, i, (b, (s[i].1 + w) as u64));
    }
}

/// Entries sum up to the total weight, and `top` is the greatest of them.
pub proof fn lemma_top(s: Seq<(u64, u64)>)
    requires
        s.len() > 0,
    ensures
        exists|i: int| 0 <= i < s.len() && top(s) == (s[i].1, s[i].0),
        forall|i: int| 0 <= i < s.len() ==> lex_le((s[i].1, s[i].0), top(s)),
    decreases s.len(),
{
    if s.len() > 1 {
        let d = s.drop_last();
        lemma_top(d);
        let k = choose|k: int| 0 <= k < d.len() && top(d) == (d[k].1, d[k].0);
        assert(d[k] == s[k]);
        assert forall|i: int| 0 <= i < s.len() implies lex_le((s[i].1, s[i].0), top(s)) by {
            if i < s.len() - 1 {
                assert(d[i] == s[i]);
            }
        }
        if top(s) == top(d) {
            assert(top(s) == (s[k].1, s[k].0));
        } else {
            assert(top(s) == (s[s.len() - 1].1, s[s.len() - 1].0));
        }
    } else {
        assert(top(s) == (s[0].1, s[0].0));
    }
}

/// A pair that is an entry and bounds all entries is `top`.
pub proof fn lemma_top_unique(s: Seq<(u64, u64)>, m: (u64, u64), i: int)
    requires
        0 <= i < s.len(),
        m == (s[i].1, s[i].0),
        forall|j: int| 0 <= j < s.len() ==> lex_le((s[j].1, s[j].0), m),
    ensures
        top(s) == m,
{
    lemma_top(s);
}

/// The greatest pair after an addition is the greater of the former greatest
/// pair and the new entry.
pub proof fn lemma_top_added(s: Seq<(u64, u64)>, b: u64, w: u64)
    requires
        keys_distinct(s),
        s.len() > 0,
        sum_weights(s) + w <= u64::MAX,
    ensures
        ({
            let t = added(s, b, w);
            let nw = t[index_of(t, b)].1;
            top(t) == lex_max(top(s), (nw, b))
        }),
{
    lemma_added(s, b, w);
    lemma_index_of(s, b);
    lemma_top(s);
    let t = added(s, b, w);
    let i = index_of(s, b);
    let ti = if i < 0 { s.len() as int } else { i };
    assert(t[ti].0 == b);
    lemma_index_of(t, b);
    let nw = t[ti].1;
    let m = lex_max(top(s), (nw, b));
    let k = choose|k: int| 0 <= k < s.len() && top(s) == (s[k].1, s[k].0);
    if i >= 0 {
        lemma_sum_update(s, i, (b, (s[i].1 + w) as u64));
    }
    assert forall|j: int| 0 <= j < t.len() implies lex_le((t[j].1, t[j].0), m) by {
        if j != ti {
            assert(t[j] == s[j]);
        }
    }
    if m == (nw, b) {
        lemma_top_unique(t, m, ti);
    } else {
        assert(k != ti);
        assert(t[k] == s[k]);
        lemma_top_unique(t, m, k);
    }
}

pub proof fn lemma_add_all(acc: Seq<(u64, u64)>, s: Seq<(u64, u64)>)
    requires
        keys_distinct(acc),
        sum_weights(acc) + sum_weights(s) <= u64::MAX,
    ensures
        keys_distinct(add_all(acc, s)),
        sum_weights(add_all(acc, s)) == sum_weights(acc) + sum_weights(s),
        acc.len() > 0 || s.len() > 0 ==> add_all(acc, s).len() > 0,
    decreases s.len(),
{
    if s.len() > 0 {
        lemma_add_all(acc, s.drop_last());
        lemma_added(add_all(acc, s.drop_last()), s.last().0, s.last().1);
    }
}

/// Each entry with its block replaced by that block's parent.
pub open spec fn parent_entries(st: State, s: Seq<(u64, u64)>) -> Seq<(u64, u64)> {
    s.map_values(|e: (u64, u64)| (st.parent_of(e.0), e.1))
}

/// Whether block `b`'s ancestor at `height` is `bhash`.
pub open spec fn descends(st: State, height: u64, bhash: u64, b: u64) -> bool {
    st.ancestor(b, height) == Some(bhash)
}

/// The entries for blocks in the sub-tree of `bhash`, which sits at `height`.
pub open spec fn kept(st: State, s: Seq<(u64, u64)>, height: u64, bhash: u64) -> Seq<(u64, u64)> {
    s.filter(|e: (u64, u64)| descends(st, height, bhash, e.0))
}

/// Every block of the entries is stored, above height 0.
pub open spec fn all_have_parents(st: State, s: Seq<(u64, u64)>) -> bool {
    forall|i: int| 0 <= i < s.len() ==> st.has_block(#[trigger] s[i].0) && st.height_of(s[i].0) > 0
}

/// Every block of the entries is stored.
pub open spec fn all_stored(st: State, s: Seq<(u64, u64)>) -> bool {
    forall|i: int| 0 <= i < s.len() ==> st.has_block(#[trigger] s[i].0)
}

/// Every block of the entries is stored, at height `h`.
pub open spec fn all_at_height(st: State, s: Seq<(u64, u64)>, h: u64) -> bool {
    forall|i: int| 0 <= i < s.len() ==> st.has_block(#[trigger] s[i].0) && st.height_of(s[i].0) == h
}

pub proof fn lemma_parent_entries_sum(st: State, s: Seq<(u64, u64)>)
    ensures
        sum_weights(parent_entries(st, s)) == sum_weights(s),
        parent_entries(st, s).len() == s.len(),
    decreases s.len(),
{
    if s.len() > 0 {
        assert(parent_entries(st, s).drop_last() =~= parent_entries(st, s.drop_last()));
        lemma_parent_entries_sum(st, s.drop_last());
    }
}

/// Filtering keeps hashes distinct, does not add weight, and keeps only
/// entries of the input sequence.
pub proof fn lemma_filter(s: Seq<(u64, u64)>, p: spec_fn((u64, u64)) -> bool)
    ensures
        keys_distinct(s) ==> keys_distinct(s.filter(p)),
        sum_weights(s.filter(p)) <= sum_weights(s),
        forall|i: int| 0 <= i < s.filter(p).len() ==> s.contains(#[trigger] s.filter(p)[i]) && p(s.filter(p)[i]),
    decreases s.len(),
{
    reveal(Seq::filter);
    if s.len() > 0 {
        let d = s.drop_last();
        lemma_filter(d, p);
        let f = s.filter(p);
        let fd = d.filter(p);
        assert forall|i: int| 0 <= i < f.len() implies s.contains(#[trigger] f[i]) && p(f[i]) by {
            if i < fd.len() {
                assert(f[i] == fd[i]);
                let k = choose|k: int| 0 <= k < d.len() && d[k] == fd[i];
                assert(s[k] == d[k]);
            } else {
                assert(f[i] == s[s.len() - 1]);
            }
        }
        if keys_distinct(s) {
            assert(keys_distinct(d));
            if p(s.last()) {
                assert forall|i: int, j: int| 0 <= i < j < f.len() implies #[trigger] f[i].0 != #[trigger] f[j].0 by {
                    if j == f.len() - 1 {
                        assert(f[i] == fd[i]);
                        let k = choose|k: int| 0 <= k < d.len() && d[k] == fd[i];
                        assert(s[k] == d[k]);
                    } else {
                        assert(f[i] == fd[i] && f[j] == fd[j]);
                    }
                }
            }
        }
        if p(s.last()) {
            lemma_sum_push(fd, s.last());
        }
    }
}

/// On distinct hashes, adding the entries one by one to nothing gives them back.
pub proof fn lemma_add_all_distinct(s: Seq<(u64, u64)>)
    requires
        keys_distinct(s),
    ensures
        add_all(Seq::empty(), s) == s,
    decreases s.len(),
{
    if s.len() > 0 {
        let d = s.drop_last();
        assert(keys_distinct(d));
        lemma_add_all_distinct(d);
        lemma_index_of(d, s.last().0);
        if index_of(d, s.last().0) >= 0 {
            assert(d[index_of(d, s.last().0)] == s[index_of(d, s.last().0)]);
        }
        assert(d.push(s.last()) =~= s);
    }
}

} // verus!
