use coalitions::valuation::{coalition_identifier, utility_seed};

#[test]
fn identifier_sums_weights() {
    assert_eq!(coalition_identifier(&vec![]), Some(0));
    assert_eq!(coalition_identifier(&vec![0, 1, 2]), Some(7));
    assert_eq!(coalition_identifier(&vec![63]), Some(1));
    assert_eq!(coalition_identifier(&vec![62]), Some(1u64 << 62));
    assert_eq!(coalition_identifier(&vec![99]), Some(1u64 << 36));
}

#[test]
fn identifier_overflow_is_none() {
    assert_eq!(coalition_identifier(&vec![62, 62, 62, 62]), None);
    assert_eq!(coalition_identifier(&vec![62, 62, 62]), Some(3u64 << 62));
}

#[test]
fn seed_adds_game_seed() {
    assert_eq!(utility_seed(&vec![], 5), Some(5));
    assert_eq!(utility_seed(&vec![3, 4], 10), Some(8 + 16 + 10));
    assert_eq!(utility_seed(&vec![62, 62, 62, 62], 0), None);
    let big: Vec<u32> = (0..63).collect();
    assert_eq!(utility_seed(&big, 0), Some(u64::MAX >> 1));
    let mut full: Vec<u32> = vec![62, 62, 62];
    full.extend(0..62);
    assert_eq!(utility_seed(&full, 0), Some(u64::MAX));
    assert_eq!(utility_seed(&full, 1), None);
}

#[test]
fn seed_ignores_member_order() {
    assert_eq!(utility_seed(&vec![5, 3, 9], 4), utility_seed(&vec![9, 5, 3], 4));
}

#[test]
fn all_agents_fit() {
    let all: Vec<u32> = (0..100).collect();
    assert!(utility_seed(&all, u16::MAX).is_some());
}
