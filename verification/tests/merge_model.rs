use coalitions::models::coalition::{Move, State};

fn agents_once(st: &State) -> bool {
    let mut seen = vec![0u32; 100];
    for c in &st.coalitions {
        for &a in c {
            if a as usize >= 100 {
                return false;
            }
            seen[a as usize] += 1;
        }
    }
    seen.iter().all(|&n| n == 1)
}

#[test]
fn new_with_seed_gives_singletons() {
    let st = State::new_with_seed(5);
    assert_eq!(st.seed, 5);
    assert_eq!(st.coalitions.len(), 100);
    for i in 0..100 {
        assert_eq!(st.coalitions[i], vec![i as u32]);
    }
    assert!(st.seq.is_empty());
    assert!(!st.terminal());
}

#[test]
fn new_gives_singletons() {
    let st = State::new();
    assert_eq!(st.coalitions.len(), 100);
    assert_eq!(st.coalitions[42], vec![42]);
    assert!(st.seq.is_empty());
}

#[test]
fn legal_moves_are_all_ordered_pairs() {
    let st = State::new_with_seed(1);
    let moves = st.legal_moves();
    assert_eq!(moves.len(), 100 * 99 / 2);
    assert_eq!(moves[0], Move { coa1: 0, coa2: 1 });
    assert_eq!(moves[1], Move { coa1: 0, coa2: 2 });
    assert_eq!(moves[99], Move { coa1: 1, coa2: 2 });
    assert_eq!(*moves.last().unwrap(), Move { coa1: 98, coa2: 99 });
    assert!(moves.iter().all(|m| m.coa1 < m.coa2 && m.coa2 < 100));
}

#[test]
fn play_merges_second_into_first() {
    let mut st = State::new_with_seed(3);
    st.play(Move { coa1: 2, coa2: 7 });
    assert_eq!(st.coalitions.len(), 99);
    assert_eq!(st.coalitions[2], vec![2, 7]);
    assert_eq!(st.coalitions[6], vec![6]);
    assert_eq!(st.coalitions[7], vec![8]);
    assert_eq!(st.seq, vec![Move { coa1: 2, coa2: 7 }]);
    st.play(Move { coa1: 6, coa2: 2 });
    assert_eq!(st.coalitions[5], vec![6, 2, 7]);
    assert_eq!(st.coalitions.len(), 98);
    assert!(agents_once(&st));
}

#[test]
fn playing_legal_moves_reaches_terminal_keeping_partition() {
    let mut st = State::new_with_seed(9);
    let mut plays = 0;
    while !st.terminal() {
        let moves = st.legal_moves();
        assert!(!moves.is_empty());
        let m = moves[moves.len() / 3];
        st.play(m);
        plays += 1;
        assert!(agents_once(&st));
    }
    assert_eq!(plays, 99);
    assert!(st.legal_moves().is_empty());
    assert_eq!(st.coalitions[0].len(), 100);
}

#[test]
fn move_text() {
    assert_eq!(Move { coa1: 3, coa2: 12 }.to_string(), "coa1: 3, coa2: 12");
    assert_eq!(Move { coa1: 0, coa2: 1090 }.to_string(), "coa1: 0, coa2: 1090");
}
