use coalitions::models::coalitionPerm::{Move, State};

fn consistent(st: &State) -> bool {
    (0..100).all(|a| {
        let c = st.agents[a];
        c >= 0 && (c as usize) < st.coalitions.len() && st.coalitions[c as usize].contains(&(a as u32))
    })
}

fn occurrences(st: &State, x: u32) -> usize {
    st.coalitions.iter().map(|c| c.iter().filter(|&&a| a == x).count()).sum()
}

#[test]
fn perm_new_lists_singletons_twice() {
    let st = State::new_with_seed(7);
    assert_eq!(st.seed, 7);
    assert_eq!(st.coalitions.len(), 200);
    assert_eq!(st.coalitions[3], vec![3]);
    assert_eq!(st.coalitions[103], vec![3]);
    assert_eq!(st.agents, (0..100).map(|i| i as i16).collect::<Vec<i16>>());
    assert!(consistent(&st));
    assert!((0..100).all(|x| occurrences(&st, x) == 2));
    let st2 = State::new();
    assert_eq!(st2.coalitions.len(), 200);
    let st3 = State::new_with_seed(0);
    assert_eq!(st3.coalitions.len(), 200);
}

#[test]
fn perm_play_into_existing_coalition_removes_emptied_source() {
    let mut st = State::new_with_seed(7);
    st.play(Move { agent: 0, coa2: 5 });
    assert_eq!(st.coalitions.len(), 199);
    assert_eq!(st.coalitions[4], vec![5, 0]);
    assert_eq!(st.agents[0], 4);
    assert_eq!(st.agents[5], 4);
    assert_eq!(st.agents[1], 0);
    assert_eq!(st.agents[99], 98);
    assert!(consistent(&st));
    assert_eq!(st.seq, vec![Move { agent: 0, coa2: 5 }]);
}

#[test]
fn perm_play_to_new_coalition() {
    let mut st = State::new_with_seed(7);
    st.play(Move { agent: 3, coa2: 8 });
    // coalition 3 emptied and removed, agent 3 now in old coalition 8 (index 7)
    assert_eq!(st.coalitions[7], vec![8, 3]);
    let n = st.coalitions.len();
    st.play(Move { agent: 3, coa2: n });
    assert_eq!(st.coalitions.len(), n + 1);
    assert_eq!(st.coalitions[n], vec![3]);
    assert_eq!(st.coalitions[7], vec![8]);
    assert_eq!(st.agents[3] as usize, n);
    assert!(consistent(&st));
    assert!((0..100).all(|x| occurrences(&st, x) == 2));
}

#[test]
fn perm_play_keeps_nonempty_source() {
    let mut st = State::new_with_seed(7);
    st.play(Move { agent: 1, coa2: 0 });
    // coalition 1 emptied: [0, 1] at index 0
    st.play(Move { agent: 0, coa2: 2 });
    assert_eq!(st.coalitions[0], vec![1]);
    assert_eq!(st.coalitions[2], vec![3, 0]);
    assert_eq!(st.agents[0], 2);
    assert_eq!(st.agents[1], 0);
    assert!(consistent(&st));
}

#[test]
fn perm_legal_moves_listing() {
    let mut st = State::new_with_seed(7);
    st.regroup(&vec![0; 100]);
    // twenty coalitions, nineteen of them empty
    let n = st.coalitions.len();
    assert_eq!(n, 20);
    let moves = st.legal_moves();
    assert_eq!(moves.len(), 100 * n * n);
    assert_eq!(moves[0], Move { agent: 0, coa2: 1 });
    assert_eq!(moves[n - 1], Move { agent: 0, coa2: n });
    assert_eq!(moves[n], Move { agent: 0, coa2: 0 });
    assert_eq!(moves[n + 1], Move { agent: 0, coa2: 2 });
    assert_eq!(*moves.last().unwrap(), Move { agent: 99, coa2: n });
}

#[test]
fn perm_regroup_follows_choices() {
    let mut st = State::new_with_seed(7);
    let choices: Vec<usize> = (0..100).map(|a| (a * 7) % 20).collect();
    st.regroup(&choices);
    assert_eq!(st.coalitions.len(), 20);
    for a in 0..100 {
        assert_eq!(st.agents[a] as usize, choices[a]);
    }
    assert_eq!(st.coalitions[0], vec![0, 20, 40, 60, 80]);
    assert_eq!(st.coalitions[7], vec![1, 21, 41, 61, 81]);
    assert!(consistent(&st));
    assert!((0..100).all(|x| occurrences(&st, x) == 1));
}

#[test]
fn perm_randomize_spreads_over_twenty() {
    let mut st = State::new_with_seed(7);
    st.randomize();
    assert_eq!(st.coalitions.len(), 20);
    assert!((0..100).all(|a| st.agents[a] >= 0 && st.agents[a] < 20));
    assert!(consistent(&st));
    assert!((0..100).all(|x| occurrences(&st, x) == 1));
    for c in &st.coalitions {
        assert!(c.windows(2).all(|w| w[0] < w[1]));
    }
}

#[test]
fn perm_move_candidates_match_play() {
    let mut st = State::new_with_seed(7);
    st.regroup(&(0..100).map(|a| a % 20).collect::<Vec<usize>>());
    let (src, dst) = st.move_candidates(5, 9);
    assert_eq!(src, vec![85, 25, 45, 65]);
    assert_eq!(dst, vec![9, 29, 49, 69, 89, 5]);
    let (_, fresh) = st.move_candidates(5, 20);
    assert_eq!(fresh, vec![5]);
    st.play(Move { agent: 5, coa2: 9 });
    assert_eq!(st.coalitions[5], src);
    assert_eq!(st.coalitions[9], dst);
}

#[test]
fn perm_terminal() {
    let mut st = State::new_with_seed(7);
    assert!(!st.terminal());
    st.regroup(&vec![0; 100]);
    assert!(!st.terminal());
}
