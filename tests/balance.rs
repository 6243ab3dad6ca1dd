use elo::{BalanceError, EloManager, Player, MAX_ROSTER, PROB_SCALE};

const A: u64 = 1;
const B: u64 = 2;
const C: u64 = 3;
const D: u64 = 4;

fn store(ratings: &[(u64, i64)]) -> EloManager {
    let mut m = EloManager::new();
    for &(id, r) in ratings {
        m.insert(id, Player::with_elo(r));
    }
    m
}

#[test]
fn balanced_split_of_four() {
    let m = store(&[(A, 2_030_000), (B, 1_970_000), (C, 2_000_000), (D, 2_000_000)]);
    let (t1, t2, e) = m.predict(&[A, B, C, D]).unwrap();
    assert_eq!(t1, vec![A, B]);
    assert_eq!(t2, vec![C, D]);
    assert_eq!(e, 500_000_000);
    assert_eq!(e, PROB_SCALE / 2);
}

#[test]
fn prediction_does_not_register() {
    let m = EloManager::new();
    let (t1, t2, e) = m.predict(&[A, B]).unwrap();
    assert_eq!(t1, vec![A]);
    assert_eq!(t2, vec![B]);
    assert_eq!(e, PROB_SCALE / 2);
    assert!(m.players().is_empty());
}

#[test]
fn ties_go_to_lowest_mask() {
    let m = EloManager::new();
    let (t1, t2) = m.find_teams(&[A, B, C, D, 5, 6]).unwrap();
    assert_eq!(t1, vec![A, B, C]);
    assert_eq!(t2, vec![D, 5, 6]);
}

#[test]
fn uneven_expected_score() {
    let m = store(&[(A, 2_300_000), (B, 2_000_000), (C, 2_000_000), (D, 1_900_000)]);
    let (t1, t2, e) = m.predict(&[A, B, C, D]).unwrap();
    assert_eq!(t1, vec![B, C]);
    assert_eq!(t2, vec![A, D]);
    assert_eq!(e, EloManager::expected_score(2_000_000, 2_100_000));
    assert_eq!(e, 359_935_000);
}

#[test]
fn roster_errors() {
    let m = EloManager::new();
    assert_eq!(m.find_teams(&[]), Err(BalanceError::EmptyRoster));
    assert_eq!(m.find_teams(&[A, B, C]), Err(BalanceError::OddRoster));
    let big: Vec<u64> = (0..(MAX_ROSTER as u64 + 2)).collect();
    assert_eq!(m.find_teams(&big), Err(BalanceError::RosterTooLarge));
    assert_eq!(m.predict(&[A]), Err(BalanceError::OddRoster));
    let most: Vec<u64> = (0..MAX_ROSTER as u64).collect();
    assert!(m.find_teams(&most).is_ok());
}

fn imbalance(m: &EloManager, roster: &[u64], mask: u32) -> i128 {
    let total: i128 = roster.iter().map(|&p| m.get_or_default(p) as i128).sum();
    let chosen: i128 = roster
        .iter()
        .enumerate()
        .filter(|(j, _)| mask & (1 << j) != 0)
        .map(|(_, &p)| m.get_or_default(p) as i128)
        .sum();
    (total - 2 * chosen).abs()
}

#[test]
fn split_is_least_imbalanced() {
    let ratings: Vec<(u64, i64)> = (0..8u64)
        .map(|i| (i, 1_500_000 + ((i * 7919) % 13) as i64 * 37_311))
        .collect();
    let m = store(&ratings);
    let roster: Vec<u64> = (0..8).collect();
    let (t1, t2) = m.find_teams(&roster).unwrap();
    assert_eq!(t1.len(), 4);
    assert_eq!(t2.len(), 4);
    let mut mask = 0u32;
    for (j, p) in roster.iter().enumerate() {
        if t1.contains(p) {
            mask |= 1 << j;
        }
    }
    let got = imbalance(&m, &roster, mask);
    let mut first_best = None;
    for other in 0u32..(1 << roster.len()) {
        if other.count_ones() == 4 {
            let s = imbalance(&m, &roster, other);
            assert!(got <= s);
            if s == got && first_best.is_none() {
                first_best = Some(other);
            }
        }
    }
    assert_eq!(first_best, Some(mask));
}

#[test]
fn split_is_deterministic() {
    let m = store(&[(A, 2_010_000), (B, 1_990_000), (C, 2_020_000), (D, 1_980_000)]);
    let roster = [D, C, B, A, 9, 10];
    let first = m.predict(&roster).unwrap();
    let second = m.predict(&roster).unwrap();
    assert_eq!(first, second);
}
