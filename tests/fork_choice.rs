use highway_core::state::State;
use highway_core::tallies::{Tallies, Tally};

const G: u64 = 0x01;
const A: u64 = 0x0a;
const B: u64 = 0x0b;
const C: u64 = 0x0c;

/// G <- A(1) <- B(2) <- C(3)
fn chain() -> State {
    let mut st = State::new();
    st.add_block(G, None);
    st.add_block(A, Some(G));
    st.add_block(B, Some(A));
    st.add_block(C, Some(B));
    st
}

/// G <- A(1) <- B(2), A(1) <- C(2)
fn fork_at_two() -> State {
    let mut st = State::new();
    st.add_block(G, None);
    st.add_block(A, Some(G));
    st.add_block(B, Some(A));
    st.add_block(C, Some(A));
    st
}

/// G <- A(1), G <- B(1)
fn fork_at_one() -> State {
    let mut st = State::new();
    st.add_block(G, None);
    st.add_block(A, Some(G));
    st.add_block(B, Some(G));
    st
}

#[test]
fn unanimous_chain() {
    let mut st = State::new();
    st.add_block(G, None);
    st.add_block(A, Some(G));
    st.add_block(B, Some(A));
    let tallies = Tallies::from_iter(vec![(2, B, 100)]);
    assert_eq!(tallies.find_decided(&st), Some((2, B)));
}

#[test]
fn majority_at_one_split_at_two() {
    let st = fork_at_two();
    let tallies = Tallies::from_iter(vec![(2, B, 30), (2, C, 30), (1, A, 0)]);
    assert_eq!(tallies.find_decided(&st), Some((2, C)));
}

#[test]
fn no_majority_above_genesis() {
    let st = fork_at_one();
    let tallies = Tallies::from_iter(vec![(1, A, 50), (1, B, 50)]);
    assert_eq!(tallies.find_decided(&st), Some((1, B)));
}

#[test]
fn majority_advances_past_several_heights() {
    let st = chain();
    let tallies = Tallies::from_iter(vec![(3, C, 70), (2, B, 10), (1, A, 20)]);
    assert_eq!(tallies.find_decided(&st), Some((3, C)));
}

#[test]
fn empty_tallies_decide_nothing() {
    let st = chain();
    let tallies = Tallies::default();
    assert!(tallies.is_empty());
    assert_eq!(tallies.find_decided(&st), None);
    assert_eq!(Tallies::from_iter(vec![]).find_decided(&st), None);
}

#[test]
fn filter_then_decide() {
    let st = fork_at_two();
    let tallies = Tallies::from_iter(vec![(2, B, 30), (2, C, 30), (1, A, 0)]);
    let filtered = tallies.filter(1, A, &st);
    assert_eq!(filtered.len(), 1);
    assert!(filtered.get(1).is_none());
    let t = filtered.get(2).unwrap();
    assert_eq!(t.weight(), 60);
    assert_eq!(t.max_w(), 30);
    assert_eq!(t.max_bhash(), C);
    assert_eq!(filtered.find_decided(&st), Some((2, C)));
}

#[test]
fn filter_drops_other_subtrees() {
    // G <- A(1) <- B(2); G <- C(1) <- D(2)
    let d: u64 = 0x0d;
    let mut st = State::new();
    st.add_block(G, None);
    st.add_block(A, Some(G));
    st.add_block(B, Some(A));
    st.add_block(C, Some(G));
    st.add_block(d, Some(C));
    let tallies = Tallies::from_iter(vec![(2, B, 10), (2, d, 40), (1, C, 5)]);
    let filtered = tallies.filter(1, A, &st);
    assert_eq!(filtered.len(), 1);
    let t = filtered.get(2).unwrap();
    assert_eq!(t.weight(), 10);
    assert_eq!(t.max_bhash(), B);
    let none_left = Tallies::from_iter(vec![(2, d, 40)]).filter(1, A, &st);
    assert!(none_left.is_empty());
}

#[test]
fn decision_at_genesis_returns_heaviest_child() {
    // Only genesis collects a majority; its heaviest child is returned.
    let st = fork_at_one();
    let tallies = Tallies::from_iter(vec![(1, A, 50), (1, B, 40), (0, G, 10)]);
    assert_eq!(tallies.find_decided(&st), Some((1, A)));
}

#[test]
fn decision_independent_of_insertion_order() {
    let st = fork_at_two();
    let one = Tallies::from_iter(vec![(2, B, 30), (2, C, 30), (1, A, 0)]);
    let two = Tallies::from_iter(vec![(1, A, 0), (2, C, 30), (2, B, 30)]);
    assert_eq!(one.find_decided(&st), two.find_decided(&st));
    let three = Tallies::from_iter(vec![(2, C, 10), (1, A, 5), (2, B, 20), (2, C, 25)]);
    let four = Tallies::from_iter(vec![(2, C, 25), (2, B, 20), (1, A, 5), (2, C, 10)]);
    assert_eq!(three.find_decided(&st), Some((2, C)));
    assert_eq!(three.find_decided(&st), four.find_decided(&st));
}

#[test]
fn tie_breaks_by_greater_hash() {
    let mut t = Tally::new(C, 5);
    t.add(B, 5);
    assert_eq!(t.max_w(), 5);
    assert_eq!(t.max_bhash(), C);
    let mut u = Tally::new(B, 5);
    u.add(C, 5);
    assert_eq!(u.max_bhash(), C);
    u.add(B, 1);
    assert_eq!(u.max_w(), 6);
    assert_eq!(u.max_bhash(), B);
}

#[test]
fn add_raises_weight_and_max() {
    let mut t = Tally::new(A, 3);
    assert_eq!(t.weight(), 3);
    t.add(B, 2);
    assert_eq!(t.weight(), 5);
    assert_eq!(t.max_w(), 3);
    assert_eq!(t.max_bhash(), A);
    t.add(B, 4);
    assert_eq!(t.weight(), 9);
    assert_eq!(t.max_w(), 6);
    assert_eq!(t.max_bhash(), B);
    t.add(A, 0);
    assert_eq!(t.weight(), 9);
    assert_eq!(t.max_w(), 6);
}

#[test]
fn try_from_iter_empty_and_merged() {
    assert!(Tally::try_from_iter(vec![]).is_none());
    let t = Tally::try_from_iter(vec![(A, 1), (B, 2), (A, 3)]).unwrap();
    assert_eq!(t.weight(), 6);
    assert_eq!(t.max_w(), 4);
    assert_eq!(t.max_bhash(), A);
}

#[test]
fn parents_keep_weight() {
    let st = fork_at_one();
    let t = Tally::try_from_iter(vec![(A, 50), (B, 50)]).unwrap();
    let p = t.parents(&st);
    assert_eq!(p.weight(), t.weight());
    assert_eq!(p.max_w(), 100);
    assert_eq!(p.max_bhash(), G);
    let st2 = fork_at_two();
    let t2 = Tally::try_from_iter(vec![(B, 7), (C, 8)]).unwrap();
    let p2 = t2.parents(&st2);
    assert_eq!(p2.weight(), 15);
    assert_eq!(p2.max_bhash(), A);
}

#[test]
fn tally_filter_keeps_subtree() {
    let st = chain();
    let t = Tally::try_from_iter(vec![(C, 4)]).unwrap();
    let f = t.filter(1, A, &st).unwrap();
    assert_eq!(f.weight(), 4);
    let t2 = Tally::try_from_iter(vec![(C, 4)]).unwrap();
    assert!(t2.filter(2, A, &st).is_none());
}

#[test]
fn find_ancestor_walks_parents() {
    let st = chain();
    assert_eq!(st.find_ancestor(C, 0), Some(G));
    assert_eq!(st.find_ancestor(C, 1), Some(A));
    assert_eq!(st.find_ancestor(C, 3), Some(C));
    assert_eq!(st.find_ancestor(A, 2), None);
    assert_eq!(st.block(B).height, 2);
    assert_eq!(st.block(B).parent, Some(A));
}

#[test]
fn tallies_add_accumulates() {
    let mut t = Tallies::default();
    t.add(2, B, 3);
    t.add(2, B, 4);
    t.add(1, A, 1);
    assert_eq!(t.len(), 2);
    assert_eq!(t.get(2).unwrap().weight(), 7);
    assert_eq!(t.get(1).unwrap().max_bhash(), A);
}

#[test]
fn only_genesis_votes() {
    let st = chain();
    let tallies = Tallies::from_iter(vec![(0, G, 10)]);
    assert_eq!(tallies.find_decided(&st), Some((0, G)));
}

#[test]
fn zero_weight_reaches_genesis_without_majority() {
    let st = fork_at_one();
    let tallies = Tallies::from_iter(vec![(1, A, 0), (1, B, 0)]);
    assert_eq!(tallies.find_decided(&st), Some((0, G)));
}

#[test]
fn tally_entries_merge_equal_hashes() {
    let t = Tally::try_from_iter(vec![(A, 1), (B, 2), (A, 3)]).unwrap();
    assert_eq!(t.entries(), vec![(A, 4), (B, 2)]);
    let st = fork_at_two();
    let p = Tally::try_from_iter(vec![(B, 7), (C, 8)]).unwrap().parents(&st);
    assert_eq!(p.entries(), vec![(A, 15)]);
}

#[test]
fn exactly_half_does_not_decide() {
    // G <- A(1); G <- E(1) <- C(2). At height 1, A and E hold 50 each of 100:
    // no strict majority, so the decision is taken at genesis.
    let e: u64 = 0x0e;
    let mut st = State::new();
    st.add_block(G, None);
    st.add_block(A, Some(G));
    st.add_block(e, Some(G));
    st.add_block(C, Some(e));
    let tallies = Tallies::from_iter(vec![(2, C, 50), (1, A, 50)]);
    assert_eq!(tallies.find_decided(&st), Some((1, e)));
}
