use highway_core::state::State;
use highway_core::vote::{Observation, Panorama, ValidatorIndex, Vote, WireVote};

fn wire(hash: u64, panorama: Panorama, seq_number: u64, values: Option<Vec<u8>>) -> WireVote<u8> {
    WireVote { hash, panorama, seq_number, sender: ValidatorIndex(0), values }
}

#[test]
fn panorama_basics() {
    let mut p = Panorama::new(3);
    assert!(p.is_empty());
    assert_eq!(*p.get(ValidatorIndex(1)), Observation::Unseen);
    p.update(ValidatorIndex(1), Observation::Faulty);
    assert!(p.is_empty());
    p.update(ValidatorIndex(2), Observation::Correct(7));
    assert!(!p.is_empty());
    let all = p.enumerate();
    assert_eq!(all.len(), 3);
    assert_eq!(all[0], (ValidatorIndex(0), Observation::Unseen));
    assert_eq!(all[1], (ValidatorIndex(1), Observation::Faulty));
    assert_eq!(all[2], (ValidatorIndex(2), Observation::Correct(7)));
}

#[test]
fn observation_correct() {
    assert_eq!(Observation::Correct(5).correct(), Some(5));
    assert_eq!(Observation::Unseen.correct(), None);
    assert_eq!(Observation::Faulty.correct(), None);
    assert!(Observation::Correct(5).is_correct());
    assert!(!Observation::Faulty.is_correct());
}

#[test]
fn first_vote_with_block_votes_for_itself() {
    let st = State::new();
    let (v, values) = Vote::new(wire(100, Panorama::new(2), 0, Some(vec![1, 2])), None, &st);
    assert_eq!(v.block, 100);
    assert_eq!(v.seq_number, 0);
    assert!(v.skip_idx.is_empty());
    assert_eq!(values, Some(vec![1, 2]));
}

#[test]
fn vote_without_block_follows_fork_choice() {
    let st = State::new();
    let (v, values) = Vote::new(wire(100, Panorama::new(2), 0, None), Some(42), &st);
    assert_eq!(v.block, 42);
    assert_eq!(values, None);
}

#[test]
fn skip_list_points_back_by_powers_of_two() {
    let mut st = State::new();
    let mut prev: Option<u64> = None;
    let mut skips: Vec<Vec<u64>> = Vec::new();
    for seq in 0..9u64 {
        let hash = 100 + seq;
        let mut pan = Panorama::new(2);
        if let Some(p) = prev {
            pan.update(ValidatorIndex(0), Observation::Correct(p));
        }
        let (v, _) = Vote::new(wire(hash, pan, seq, None), Some(1), &st);
        let expected_len = if seq == 0 { 0 } else { seq.trailing_zeros() as usize + 1 };
        assert_eq!(v.skip_idx.len(), expected_len);
        for (i, h) in v.skip_idx.iter().enumerate() {
            assert_eq!(*h, 100 + seq - (1u64 << i));
        }
        skips.push(v.skip_idx.clone());
        st.add_vote(hash, v);
        prev = Some(hash);
    }
    assert_eq!(skips[4], vec![103, 102, 100]);
    assert_eq!(skips[8], vec![107, 106, 104, 100]);
    assert_eq!(skips[6], vec![105, 104]);
    assert_eq!(st.vote(104).seq_number, 4);
}
