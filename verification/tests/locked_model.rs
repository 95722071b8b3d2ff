use coalitions::models::coalitionsB::{Move, State};

#[test]
fn b_new_with_seed_gives_singletons_unlocked() {
    let st = State::new_with_seed(11);
    assert_eq!(st.seed, 11);
    assert_eq!(st.coalitions.len(), 100);
    assert_eq!(st.coalitions[99], vec![99]);
    assert_eq!(st.locked_coa, 0);
    assert_eq!(st.locked_moves, 0);
    assert!(!st.terminal());
    let st2 = State::new();
    assert_eq!(st2.coalitions.len(), 100);
}

#[test]
fn b_legal_moves_start_at_lock() {
    let mut st = State::new_with_seed(2);
    let moves = st.legal_moves();
    assert_eq!(moves.len(), 100);
    assert_eq!(moves[0], Move { coa: 0 });
    st.play(Move { coa: 0 });
    assert_eq!(st.locked_coa, 1);
    assert_eq!(st.locked_moves, 1);
    let moves = st.legal_moves();
    assert_eq!(moves.len(), 99);
    assert_eq!(moves[0], Move { coa: 1 });
    assert_eq!(moves[98], Move { coa: 99 });
}

#[test]
fn b_play_merges_into_current() {
    let mut st = State::new_with_seed(2);
    st.play(Move { coa: 0 });
    st.play(Move { coa: 5 });
    assert_eq!(st.locked_coa, 1);
    assert_eq!(st.locked_moves, 5);
    assert_eq!(st.coalitions.len(), 99);
    assert_eq!(st.coalitions[1], vec![1, 5]);
    assert_eq!(st.coalitions[5], vec![6]);
    assert_eq!(st.seq, vec![Move { coa: 0 }, Move { coa: 5 }]);
}

#[test]
fn b_game_ends_after_unlocked_count_moves() {
    let mut st = State::new_with_seed(4);
    let mut plays = 0;
    while !st.terminal() {
        let moves = st.legal_moves();
        let m = moves[moves.len() / 2];
        st.play(m);
        plays += 1;
    }
    assert_eq!(plays, 100);
    assert!(st.legal_moves().is_empty());
    let mut all: Vec<u32> = st.coalitions.iter().flatten().copied().collect();
    all.sort();
    assert_eq!(all, (0..100).collect::<Vec<u32>>());
}
